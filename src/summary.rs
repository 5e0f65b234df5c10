//! Album-level figures drawn from the per-track DR values.
use vstd::prelude::*;

verus! {

/// `num / den` rounded to the nearest integer, halves away from zero.
pub open spec fn nearest(num: int, den: int) -> int {
    if num >= 0 {
        (2 * num + den) / (2 * den)
    } else {
        -((-2 * num + den) / (2 * den))
    }
}

/// Sum of the values.
pub open spec fn total(s: Seq<i32>) -> int
    decreases s.len(),
{
    if s.len() == 0 {
        0
    } else {
        total(s.drop_last()) + s.last() as int
    }
}

/// `v` is the least of the values.
pub open spec fn is_min(s: Seq<i32>, v: i32) -> bool {
    &&& s.contains(v)
    &&& forall|k: int| 0 <= k < s.len() ==> v <= #[trigger] s[k]
}

/// `v` is the greatest of the values.
pub open spec fn is_max(s: Seq<i32>, v: i32) -> bool {
    &&& s.contains(v)
    &&& forall|k: int| 0 <= k < s.len() ==> #[trigger] s[k] <= v
}

/// `num / den` rounded to the nearest integer, halves away from zero.
pub fn round_half_away(num: i128, den: u64) -> (r: i128)
    requires
        den >= 1,
        -0x1_0000_0000_0000_0000_0000_0000 <= num <= 0x1_0000_0000_0000_0000_0000_0000,
    ensures
        r == nearest(num as int, den as int),
{
    let d = den as i128;
    if num >= 0 {
        (2 * num + d) / (2 * d)
    } else {
        -((d - 2 * num) / (2 * d))
    }
}

/// The DR figures of an album.
#[derive(Clone, Copy, Debug, PartialEq, Eq)]
pub struct AlbumSummary {
    /// Number of tracks analysed.
    pub tracks: u64,
    /// Mean of the track DR values, rounded halves away from zero.
    pub album_dr: i128,
    /// Lowest track DR.
    pub dr_min: i32,
    /// Highest track DR.
    pub dr_max: i32,
}

/// The album summary of the DR values of the analysed tracks; `None` when no
/// track was analysed.
pub fn summarize(drs: &Vec<i32>) -> (r: Option<AlbumSummary>)
    ensures
        drs@.len() == 0 <==> r is None,
        r is Some ==> {
            let a = r->Some_0;
            &&& a.tracks == drs@.len()
            &&& a.album_dr == nearest(total(drs@), drs@.len() as int)
            &&& is_min(drs@, a.dr_min)
            &&& is_max(drs@, a.dr_max)
        },
{
    if drs.len() == 0 {
        return None;
    }
    let mut sum: i128 = 0;
    let mut lo: i32 = drs[0];
    let mut hi: i32 = drs[0];
    let mut i: usize = 0;
    while i < drs.len()
        invariant
            0 < drs@.len(),
            i <= drs@.len(),
            sum == total(drs@.take(i as int)),
            -0x8000_0000 * i <= sum <= 0x8000_0000 * i,
            drs@.contains(lo),
            drs@.contains(hi),
            forall|k: int| 0 <= k < i ==> lo <= #[trigger] drs@[k] <= hi,
            lo <= drs@[0] <= hi,
        decreases drs@.len() - i,
    {
        let x = drs[i];
        proof {
            assert(drs@.take(i + 1).drop_last() == drs@.take(i as int));
        }
        sum = sum + x as i128;
        if x < lo {
            lo = x;
        }
        if x > hi {
            hi = x;
        }
        i = i + 1;
    }
    proof {
        assert(drs@.take(i as int) == drs@);
    }
    let album_dr = round_half_away(sum, drs.len() as u64);
    Some(AlbumSummary { tracks: drs.len() as u64, album_dr, dr_min: lo, dr_max: hi })
}

/// How an album DR is judged.
#[derive(Clone, Copy, Debug, PartialEq, Eq)]
pub enum Rating {
    /// DR 14 and above: a wide dynamic range.
    Excellent,
    /// DR 10 to 13.
    Good,
    /// DR 8 and 9.
    Acceptable,
    /// DR 6 and 7.
    Compressed,
    /// Below DR 6.
    BrickWalled,
}

/// The rating of an album DR.
pub fn rating_for(dr: i128) -> (r: Rating)
    ensures
        r == (if dr >= 14 {
            Rating::Excellent
        } else if dr >= 10 {
            Rating::Good
        } else if dr >= 8 {
            Rating::Acceptable
        } else if dr >= 6 {
            Rating::Compressed
        } else {
            Rating::BrickWalled
        }),
{
    if dr >= 14 {
        Rating::Excellent
    } else if dr >= 10 {
        Rating::Good
    } else if dr >= 8 {
        Rating::Acceptable
    } else if dr >= 6 {
        Rating::Compressed
    } else {
        Rating::BrickWalled
    }
}

/// Whole seconds as hours, minutes and seconds.
pub fn split_duration(secs: u64) -> (r: (u64, u64, u64))
    ensures
        r.0 == secs / 3600,
        r.1 == (secs % 3600) / 60,
        r.2 == secs % 60,
        r.0 * 3600 + r.1 * 60 + r.2 == secs,
{
    (secs / 3600, (secs % 3600) / 60, secs % 60)
}

/// The album DR of a single track is that track's DR.
pub proof fn lemma_single_track_album(dr: i32)
    ensures
        total(seq![dr]) == dr,
        nearest(total(seq![dr]), 1) == dr,
{
    assert(seq![dr].drop_last() =~= Seq::<i32>::empty());
    assert(total(Seq::<i32>::empty()) == 0);
    let d = dr as int;
    if d >= 0 {
        assert((2 * d + 1) / 2 == d);
    } else {
        assert((-2 * d + 1) / 2 == -d);
    }
}

} // verus!
