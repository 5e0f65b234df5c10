//! Figures of a whole track, pooled over its channels.
use vstd::prelude::*;
use crate::blocks::BlockStats;

verus! {

/// `2^e`.
pub open spec fn two_pow(e: nat) -> nat
    decreases e,
{
    if e == 0 {
        1
    } else {
        2 * two_pow((e - 1) as nat)
    }
}

/// The full-scale value of a sample of `bit_depth` bits, `2^(bit_depth - 1)`:
/// a raw sample divided by it lies in `[-1, 1]`.
pub fn sample_scale(bit_depth: u32) -> (r: u64)
    requires
        1 <= bit_depth <= 64,
    ensures
        r == two_pow((bit_depth - 1) as nat),
{
    let mut r: u64 = 1;
    let mut e: u32 = 1;
    while e < bit_depth
        invariant
            1 <= e <= bit_depth,
            bit_depth <= 64,
            r == two_pow((e - 1) as nat),
        decreases bit_depth - e,
    {
        proof {
            lemma_two_pow_monotone(e as nat, 63);
            lemma_two_pow_63();
        }
        r = r * 2;
        e = e + 1;
    }
    r
}

proof fn lemma_two_pow_63()
    ensures
        two_pow(63) == 0x8000_0000_0000_0000,
{
    reveal_with_fuel(two_pow, 64);
}

proof fn lemma_two_pow_monotone(a: nat, b: nat)
    requires
        a <= b,
    ensures
        two_pow(a) <= two_pow(b),
    decreases b,
{
    if a < b {
        lemma_two_pow_monotone(a, (b - 1) as nat);
    }
}

/// `v` is the largest peak over the blocks of every channel, zero where there
/// are none.
pub open spec fn is_overall_peak(channels: Seq<Seq<BlockStats>>, v: u64) -> bool {
    &&& forall|c: int, j: int|
        0 <= c < channels.len() && 0 <= j < channels[c].len() ==> #[trigger] channels[c][j].peak <= v
    &&& (v == 0 || exists|c: int, j: int|
        0 <= c < channels.len() && 0 <= j < channels[c].len() && #[trigger] channels[c][j].peak == v)
}

/// The views of the rows.
pub open spec fn rows_view(channels: Seq<Vec<BlockStats>>) -> Seq<Seq<BlockStats>> {
    channels.map_values(|row: Vec<BlockStats>| row@)
}

/// The largest block peak of the track, over all channels pooled.
pub fn overall_peak(channels: &Vec<Vec<BlockStats>>) -> (r: u64)
    ensures
        is_overall_peak(rows_view(channels@), r),
{
    let ghost rows = rows_view(channels@);
    let mut best: u64 = 0;
    let mut c: usize = 0;
    while c < channels.len()
        invariant
            c <= channels@.len(),
            rows == rows_view(channels@),
            forall|k: int, j: int|
                0 <= k < c && 0 <= j < rows[k].len() ==> #[trigger] rows[k][j].peak <= best,
            best == 0 || exists|k: int, j: int|
                0 <= k < rows.len() && 0 <= j < rows[k].len() && #[trigger] rows[k][j].peak == best,
        decreases channels@.len() - c,
    {
        let row = &channels[c];
        let mut j: usize = 0;
        while j < row.len()
            invariant
                c < channels@.len(),
                row@ == rows[c as int],
                j <= row@.len(),
                rows == rows_view(channels@),
                forall|k: int, i: int|
                    0 <= k < c && 0 <= i < rows[k].len() ==> #[trigger] rows[k][i].peak <= best,
                forall|i: int| 0 <= i < j ==> #[trigger] rows[c as int][i].peak <= best,
                best == 0 || exists|k: int, i: int|
                    0 <= k < rows.len() && 0 <= i < rows[k].len() && #[trigger] rows[k][i].peak == best,
            decreases row@.len() - j,
        {
            if row[j].peak > best {
                best = row[j].peak;
                proof {
                    assert(rows[c as int][j as int].peak == best);
                }
            }
            j = j + 1;
        }
        proof {
            assert forall|k: int, i: int| 0 <= k < c + 1 && 0 <= i < rows[k].len() implies
                #[trigger] rows[k][i].peak <= best by {
                if k == c {
                    assert(rows[c as int][i].peak <= best);
                }
            }
        }
        c = c + 1;
    }
    best
}

} // verus!
