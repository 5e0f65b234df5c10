//! Reducing the blocks of one channel to the figures its DR is made of.
use vstd::prelude::*;
use vstd::relations::sorted_by;
use crate::blocks::BlockStats;

verus! {

broadcast use vstd::seq_lib::group_to_multiset_ensures;

const TWO_POW_64: u128 = 0x1_0000_0000_0000_0000;

/// The peak taken is this far from the top of the ascending peaks.
pub const NTH_HIGHEST_PEAK: u64 = 2;

/// Ascending order on integers.
pub open spec fn ascending() -> spec_fn(u64, u64) -> bool {
    |a: u64, b: u64| a <= b
}

/// `a` is at most as loud as `b`: `a.sum_sq / a.len <= b.sum_sq / b.len`,
/// which orders blocks by RMS.
pub open spec fn quieter_eq(a: BlockStats, b: BlockStats) -> bool {
    (a.sum_sq as int) * (b.len as int) <= (b.sum_sq as int) * (a.len as int)
}

/// The RMS order as a relation on blocks.
pub open spec fn by_rms() -> spec_fn(BlockStats, BlockStats) -> bool {
    |a: BlockStats, b: BlockStats| quieter_eq(a, b)
}

/// The peaks of the blocks, in block order.
pub open spec fn peaks_of(blocks: Seq<BlockStats>) -> Seq<u64> {
    blocks.map_values(|b: BlockStats| b.peak)
}

/// Every block is a measurement of some non-empty block of samples.
pub open spec fn all_wf(blocks: Seq<BlockStats>) -> bool {
    forall|k: int| 0 <= k < blocks.len() ==> (#[trigger] blocks[k]).wf()
}

/// `t` holds the same blocks as `blocks`, in ascending order of RMS.
pub open spec fn sorted_by_rms(t: Seq<BlockStats>, blocks: Seq<BlockStats>) -> bool {
    &&& sorted_by(t, by_rms())
    &&& t.to_multiset() == blocks.to_multiset()
}

/// Index of the loud peak among `total` ascending peaks: the second highest,
/// or the only one.
pub open spec fn peak_index(total: int) -> int {
    if total < NTH_HIGHEST_PEAK {
        0
    } else {
        total - NTH_HIGHEST_PEAK
    }
}

/// Number of loudest blocks whose RMS makes up the loud RMS: a fifth of
/// `total`, rounded to the nearest integer (a fifth never falls halfway),
/// and at least one.
pub open spec fn top_count(total: int) -> int {
    if (total + 2) / 5 < 1 {
        1
    } else {
        (total + 2) / 5
    }
}

/// `total.saturating_sub(2)`: where the loud peak sits among the sorted peaks.
pub fn loud_peak_index(total: u64) -> (r: u64)
    ensures
        r == peak_index(total as int),
{
    if total < NTH_HIGHEST_PEAK {
        0
    } else {
        total - NTH_HIGHEST_PEAK
    }
}

/// `max(1, round(total * 0.2))`: how many of the loudest blocks count.
pub fn loud_block_count(total: u64) -> (r: u64)
    ensures
        r == top_count(total as int),
        total >= 1 ==> 1 <= r <= total,
{
    let n = total / 5 + (if total % 5 >= 3 { 1u64 } else { 0u64 });
    if n < 1 {
        1
    } else {
        n
    }
}

/// `a * b` as a high part and a low 64-bit part.
fn mul_wide(a: u128, b: u64) -> (r: (u128, u64))
    ensures
        (r.0 as int) * (TWO_POW_64 as int) + (r.1 as int) == (a as int) * (b as int),
{
    let lo_a: u128 = a % TWO_POW_64;
    let hi_a: u128 = a / TWO_POW_64;
    proof {
        assert(lo_a < TWO_POW_64 && hi_a < TWO_POW_64);
        assert(lo_a * (b as int) < TWO_POW_64 * TWO_POW_64 - TWO_POW_64 + 1) by (nonlinear_arith)
            requires
                lo_a < TWO_POW_64,
                b < TWO_POW_64,
        ;
        assert(hi_a * (b as int) <= (TWO_POW_64 - 1) * (TWO_POW_64 - 1)) by (nonlinear_arith)
            requires
                hi_a < TWO_POW_64,
                b < TWO_POW_64,
                0 <= hi_a,
                0 <= b,
        ;
    }
    let p_lo: u128 = lo_a * (b as u128);
    let p_hi: u128 = hi_a * (b as u128);
    let hi: u128 = p_hi + p_lo / TWO_POW_64;
    let lo: u64 = (p_lo % TWO_POW_64) as u64;
    proof {
        assert((a as int) == (hi_a as int) * TWO_POW_64 + lo_a);
        assert((a as int) * (b as int) == (hi_a * b) * TWO_POW_64 + lo_a * b) by (nonlinear_arith)
            requires
                (a as int) == (hi_a as int) * TWO_POW_64 + lo_a,
        ;
        assert(p_lo as int == (p_lo / TWO_POW_64) * TWO_POW_64 + p_lo % TWO_POW_64);
        assert((hi as int) * TWO_POW_64 == p_hi * TWO_POW_64 + (p_lo / TWO_POW_64) * TWO_POW_64)
            by (nonlinear_arith)
            requires
                hi as int == p_hi + p_lo / TWO_POW_64,
        ;
    }
    (hi, lo)
}

/// Compares two numbers given as high and low parts.
proof fn lemma_wide_le(h1: int, l1: int, h2: int, l2: int)
    requires
        0 <= l1 < TWO_POW_64,
        0 <= l2 < TWO_POW_64,
    ensures
        (h1 < h2 || (h1 == h2 && l1 <= l2)) <==> h1 * TWO_POW_64 + l1 <= h2 * TWO_POW_64 + l2,
{
    if h1 < h2 {
        assert(h1 * TWO_POW_64 + TWO_POW_64 <= h2 * TWO_POW_64) by (nonlinear_arith)
            requires
                h1 < h2,
        ;
    } else if h1 > h2 {
        assert(h2 * TWO_POW_64 + TWO_POW_64 <= h1 * TWO_POW_64) by (nonlinear_arith)
            requires
                h2 < h1,
        ;
    }
}

/// Whether block `a` is at most as loud (by RMS) as block `b`, exactly.
pub fn is_quieter_or_equal(a: &BlockStats, b: &BlockStats) -> (r: bool)
    ensures
        r == quieter_eq(*a, *b),
{
    let x = mul_wide(a.sum_sq, b.len);
    let y = mul_wide(b.sum_sq, a.len);
    proof {
        lemma_wide_le(x.0 as int, x.1 as int, y.0 as int, y.1 as int);
    }
    x.0 < y.0 || (x.0 == y.0 && x.1 <= y.1)
}

proof fn lemma_quieter_trans(a: BlockStats, b: BlockStats, c: BlockStats)
    requires
        b.len >= 1,
        quieter_eq(a, b),
        quieter_eq(b, c),
    ensures
        quieter_eq(a, c),
{
    let (sa, la, sb, lb, sc, lc) = (
        a.sum_sq as int,
        a.len as int,
        b.sum_sq as int,
        b.len as int,
        c.sum_sq as int,
        c.len as int,
    );
    assert(sa * lc <= sc * la) by (nonlinear_arith)
        requires
            sa * lb <= sb * la,
            sb * lc <= sc * lb,
            lb >= 1,
            la >= 0,
            lc >= 0,
    {
        assert(sa * lb * lc <= sb * la * lc);
        assert(sb * lc * la <= sc * lb * la);
        assert((sa * lc) * lb <= (sc * la) * lb);
    }
}

/// The blocks in ascending order of RMS.
pub fn sort_by_rms(blocks: &Vec<BlockStats>) -> (r: Vec<BlockStats>)
    requires
        all_wf(blocks@),
    ensures
        sorted_by_rms(r@, blocks@),
        all_wf(r@),
{
    let mut out: Vec<BlockStats> = Vec::new();
    let mut i: usize = 0;
    while i < blocks.len()
        invariant
            i <= blocks@.len(),
            all_wf(blocks@),
            all_wf(out@),
            sorted_by(out@, by_rms()),
            out@.to_multiset() == blocks@.take(i as int).to_multiset(),
        decreases blocks@.len() - i,
    {
        let x = blocks[i];
        let mut p: usize = 0;
        while p < out.len() && is_quieter_or_equal(&out[p], &x)
            invariant
                p <= out@.len(),
                forall|k: int| 0 <= k < p ==> quieter_eq(#[trigger] out@[k], x),
            decreases out@.len() - p,
        {
            p = p + 1;
        }
        proof {
            if p < out@.len() {
                assert(quieter_eq(x, out@[p as int]));
                assert forall|k: int| p <= k < out@.len() implies quieter_eq(x, #[trigger] out@[k]) by {
                    if k > p {
                        assert(by_rms()(out@[p as int], out@[k]));
                        lemma_quieter_trans(x, out@[p as int], out@[k]);
                    }
                }
            }
            assert forall|a: int, b: int| 0 <= a < b < out@.len() implies
                #[trigger] quieter_eq(out@[a], out@[b]) by {
                assert(by_rms()(out@[a], out@[b]));
            }
            assert(blocks@.take(i + 1) == blocks@.take(i as int).push(x));
        }
        let ghost before = out@;
        out.insert(p, x);
        proof {
            assert forall|a: int, b: int| 0 <= a < b < out@.len() implies
                #[trigger] (by_rms())(out@[a], out@[b]) by {
                if b < p {
                    assert(quieter_eq(before[a], before[b]));
                } else if b == p {
                } else if a < p {
                    assert(quieter_eq(before[a], x));
                    assert(quieter_eq(x, before[b - 1]));
                    lemma_quieter_trans(before[a], x, before[b - 1]);
                } else if a == p {
                } else {
                    assert(quieter_eq(before[a - 1], before[b - 1]));
                }
            }
        }
        i = i + 1;
    }
    proof {
        assert(blocks@.take(i as int) == blocks@);
    }
    out
}

/// The peaks of the blocks in ascending order.
pub fn sorted_peaks(blocks: &Vec<BlockStats>) -> (r: Vec<u64>)
    ensures
        r@ == peaks_of(blocks@).sort_by(ascending()),
{
    let ghost all = peaks_of(blocks@);
    let mut out: Vec<u64> = Vec::new();
    let mut i: usize = 0;
    while i < blocks.len()
        invariant
            i <= blocks@.len(),
            all == peaks_of(blocks@),
            sorted_by(out@, ascending()),
            out@.to_multiset() == all.take(i as int).to_multiset(),
        decreases blocks@.len() - i,
    {
        let x = blocks[i].peak;
        let mut p: usize = 0;
        while p < out.len() && out[p] <= x
            invariant
                p <= out@.len(),
                forall|k: int| 0 <= k < p ==> #[trigger] out@[k] <= x,
            decreases out@.len() - p,
        {
            p = p + 1;
        }
        proof {
            assert forall|a: int, b: int|
                #![trigger out@[a], out@[b]]
                0 <= a < b < out@.len() implies out@[a] <= out@[b] by {
                assert(ascending()(out@[a], out@[b]));
            }
            assert(all.take(i + 1) == all.take(i as int).push(x));
        }
        let ghost before = out@;
        out.insert(p, x);
        proof {
            assert forall|a: int, b: int| 0 <= a < b < out@.len() implies
                #[trigger] (ascending())(out@[a], out@[b]) by {
                if b < p {
                    assert(before[a] <= before[b]);
                } else if b == p {
                } else if a < p {
                    assert(before[a] <= x);
                    if b - 1 > p {
                        assert(before[p as int] <= before[b - 1]);
                    }
                } else if a == p {
                    if b - 1 > p {
                        assert(before[p as int] <= before[b - 1]);
                    }
                } else {
                    assert(before[a - 1] <= before[b - 1]);
                }
            }
        }
        i = i + 1;
    }
    proof {
        assert(all.take(i as int) == all);
        all.lemma_sort_by_ensures(ascending());
        vstd::seq_lib::lemma_sorted_unique(out@, all.sort_by(ascending()), ascending());
    }
    out
}

/// What a channel's DR is computed from.
///
/// With `scale = 2^(bit_depth - 1)` and `rms(b) = sqrt(2 * b.sum_sq / b.len) / scale`,
/// the channel's DR is `20 * log10((peak_loud / scale) / rms_loud)`, where
/// `rms_loud` is the root mean square of `rms(b)` over `loud_blocks`.
#[derive(Clone, Debug)]
pub struct ChannelLoudness {
    /// The second-highest block peak, or the only one.
    pub peak_loud: u64,
    /// The loudest blocks by RMS, in ascending order of RMS.
    pub loud_blocks: Vec<BlockStats>,
}

/// `peak_loud` and `loud` are what the DR of a channel with `blocks` is
/// computed from: the peak at `peak_index` of the ascending peaks, and the
/// last `top_count` blocks of the blocks in ascending order of RMS.
pub open spec fn loudness_of(blocks: Seq<BlockStats>, peak_loud: u64, loud: Seq<BlockStats>) -> bool {
    let total = blocks.len() as int;
    &&& total >= 1
    &&& peak_loud == peaks_of(blocks).sort_by(ascending())[peak_index(total)]
    &&& exists|t: Seq<BlockStats>|
        sorted_by_rms(t, blocks) && loud == #[trigger] t.subrange(total - top_count(total), total)
}

/// The loud peak and the loudest blocks of one channel; `None` for a channel
/// without blocks, whose DR is zero.
pub fn channel_loudness(blocks: &Vec<BlockStats>) -> (r: Option<ChannelLoudness>)
    requires
        all_wf(blocks@),
    ensures
        blocks@.len() == 0 <==> r is None,
        r is Some ==> loudness_of(blocks@, r->Some_0.peak_loud, r->Some_0.loud_blocks@),
{
    if blocks.len() == 0 {
        return None;
    }
    let total = blocks.len() as u64;
    let peaks = sorted_peaks(blocks);
    proof {
        peaks_of(blocks@).lemma_sort_by_ensures(ascending());
        assert(peaks@.to_multiset().len() == peaks_of(blocks@).to_multiset().len());
        assert(peaks@.len() == peaks_of(blocks@).len());
    }
    let idx = loud_peak_index(total);
    let peak_loud = peaks[idx as usize];
    let by_level = sort_by_rms(blocks);
    let top = loud_block_count(total);
    proof {
        assert(by_level@.to_multiset().len() == blocks@.to_multiset().len());
    }
    let start = (total - top) as usize;
    let mut loud: Vec<BlockStats> = Vec::new();
    let mut i: usize = start;
    while i < by_level.len()
        invariant
            start <= i <= by_level@.len(),
            by_level@.len() == blocks@.len(),
            loud@ == by_level@.subrange(start as int, i as int),
        decreases by_level@.len() - i,
    {
        loud.push(by_level[i]);
        proof {
            assert(by_level@.subrange(start as int, i + 1) == by_level@.subrange(
                start as int,
                i as int,
            ).push(by_level@[i as int]));
        }
        i = i + 1;
    }
    proof {
        assert(sorted_by_rms(by_level@, blocks@));
        assert(loud@ == by_level@.subrange(
            blocks@.len() - top_count(blocks@.len() as int),
            blocks@.len() as int,
        ));
    }
    Some(ChannelLoudness { peak_loud, loud_blocks: loud })
}

impl ChannelLoudness {
    /// Whether the loud RMS is zero, in which case the channel's DR is zero.
    pub fn is_silent(&self) -> (r: bool)
        ensures
            r == forall|k: int|
                0 <= k < self.loud_blocks@.len() ==> (#[trigger] self.loud_blocks@[k]).sum_sq == 0,
    {
        let mut i: usize = 0;
        while i < self.loud_blocks.len()
            invariant
                i <= self.loud_blocks@.len(),
                forall|k: int| 0 <= k < i ==> (#[trigger] self.loud_blocks@[k]).sum_sq == 0,
            decreases self.loud_blocks@.len() - i,
        {
            if self.loud_blocks[i].sum_sq != 0 {
                return false;
            }
            i = i + 1;
        }
        true
    }
}

/// A channel of a single block takes that block's peak as its loud peak and
/// that block alone as its loudest blocks.
pub proof fn lemma_single_block(b: BlockStats, peak_loud: u64, loud: Seq<BlockStats>)
    requires
        loudness_of(seq![b], peak_loud, loud),
    ensures
        peak_index(1) == 0,
        top_count(1) == 1,
        peak_loud == b.peak,
        loud == seq![b],
{
    let blocks = seq![b];
    let ps = peaks_of(blocks);
    ps.lemma_sort_by_ensures(ascending());
    let sorted = ps.sort_by(ascending());
    assert(ps.to_multiset().count(b.peak) > 0) by {
        assert(ps[0] == b.peak);
    }
    assert(sorted.to_multiset().len() == ps.to_multiset().len());
    assert(sorted.len() == 1);
    assert(sorted.to_multiset().count(sorted[0]) > 0);
    assert(ps.contains(sorted[0]));
    let t = choose|t: Seq<BlockStats>|
        sorted_by_rms(t, blocks) && loud == #[trigger] t.subrange(1 - top_count(1), 1);
    assert(t.to_multiset().len() == blocks.to_multiset().len());
    assert(t.len() == 1);
    assert(t.to_multiset().count(t[0]) > 0);
    assert(blocks.contains(t[0]));
    assert(loud =~= seq![b]);
}

/// A channel whose blocks all have zero energy is silent: its loudest blocks
/// have zero energy too, so its DR is zero.
pub proof fn lemma_silent_channel(blocks: Seq<BlockStats>, peak_loud: u64, loud: Seq<BlockStats>)
    requires
        forall|k: int| 0 <= k < blocks.len() ==> (#[trigger] blocks[k]).sum_sq == 0,
        loudness_of(blocks, peak_loud, loud),
    ensures
        forall|k: int| 0 <= k < loud.len() ==> (#[trigger] loud[k]).sum_sq == 0,
{
    let total = blocks.len() as int;
    let t = choose|t: Seq<BlockStats>|
        sorted_by_rms(t, blocks) && loud == #[trigger] t.subrange(total - top_count(total), total);
    assert(t.to_multiset().len() == blocks.to_multiset().len());
    assert(t.len() == total);
    assert(1 <= top_count(total) <= total);
    assert forall|k: int| 0 <= k < loud.len() implies (#[trigger] loud[k]).sum_sq == 0 by {
        let j = total - top_count(total) + k;
        assert(loud[k] == t[j]);
        assert(t.to_multiset().count(t[j]) > 0);
        assert(blocks.contains(t[j]));
    }
}

/// `a` and `b` have the same RMS.
pub open spec fn same_level(a: BlockStats, b: BlockStats) -> bool {
    quieter_eq(a, b) && quieter_eq(b, a)
}

proof fn lemma_same_level_trans(a: BlockStats, b: BlockStats, c: BlockStats)
    requires
        b.len >= 1,
        same_level(a, b),
        same_level(b, c),
    ensures
        same_level(a, c),
{
    lemma_quieter_trans(a, b, c);
    lemma_quieter_trans(c, b, a);
}

proof fn lemma_perm_wf(t: Seq<BlockStats>, blocks: Seq<BlockStats>)
    requires
        all_wf(blocks),
        t.to_multiset() == blocks.to_multiset(),
    ensures
        all_wf(t),
{
    assert forall|k: int| 0 <= k < t.len() implies (#[trigger] t[k]).wf() by {
        assert(t.to_multiset().count(t[k]) > 0);
        assert(blocks.contains(t[k]));
    }
}

/// Two orderings by RMS of the same blocks have the same RMS at each place.
proof fn lemma_sorted_levels_agree(t1: Seq<BlockStats>, t2: Seq<BlockStats>)
    requires
        sorted_by(t1, by_rms()),
        sorted_by(t2, by_rms()),
        t1.to_multiset() == t2.to_multiset(),
        all_wf(t1),
        all_wf(t2),
    ensures
        t1.len() == t2.len(),
        forall|i: int| 0 <= i < t1.len() ==> same_level(#[trigger] t1[i], t2[i]),
    decreases t1.len(),
{
    vstd::seq_lib::to_multiset_len(t1);
    vstd::seq_lib::to_multiset_len(t2);
    let n = t1.len() as int;
    if n > 0 {
        let m = t1[n - 1];
        let last2 = t2[n - 1];
        assert(t2.to_multiset().count(m) > 0);
        assert(t2.contains(m));
        let j = choose|j: int| 0 <= j < n && t2[j] == m;
        assert(t2.contains(last2));
        assert(t2.to_multiset().count(last2) > 0);
        assert(t1.to_multiset().count(last2) > 0);
        assert(t1.contains(last2));
        let k = choose|k: int| 0 <= k < n && t1[k] == last2;
        if k < n - 1 {
            assert(by_rms()(t1[k], t1[n - 1]));
        }
        assert(quieter_eq(last2, m));
        assert forall|i: int| j <= i < n implies same_level(#[trigger] t2[i], m) by {
            if j < i {
                assert(by_rms()(t2[j], t2[i]));
            }
            if i < n - 1 {
                assert(by_rms()(t2[i], t2[n - 1]));
                lemma_quieter_trans(t2[i], last2, m);
            }
        }
        let r1 = t1.drop_last();
        let r2 = t2.remove(j);
        assert(t1 == r1.push(m));
        assert(r1.to_multiset() == t1.to_multiset().remove(m));
        assert(r2.to_multiset() == t2.to_multiset().remove(m));
        assert forall|a: int, b: int| 0 <= a < b < r2.len() implies #[trigger] (by_rms())(r2[a], r2[b]) by {
            let a2 = if a < j { a } else { a + 1 };
            let b2 = if b < j { b } else { b + 1 };
            assert(by_rms()(t2[a2], t2[b2]));
        }
        assert forall|a: int, b: int| 0 <= a < b < r1.len() implies #[trigger] (by_rms())(r1[a], r1[b]) by {
            assert(by_rms()(t1[a], t1[b]));
        }
        assert forall|a: int| 0 <= a < r2.len() implies (#[trigger] r2[a]).wf() by {
            if a >= j {
                assert(t2[a + 1].wf());
            }
        }
        assert forall|a: int| 0 <= a < r1.len() implies (#[trigger] r1[a]).wf() by {
            assert(t1[a].wf());
        }
        lemma_sorted_levels_agree(r1, r2);
        assert forall|i: int| 0 <= i < n implies same_level(#[trigger] t1[i], t2[i]) by {
            if i == n - 1 {
            } else if i < j {
                assert(same_level(r1[i], r2[i]));
            } else {
                assert(same_level(r1[i], r2[i]));
                assert(r2[i] == t2[i + 1]);
                assert(same_level(t2[i + 1], m));
                assert(same_level(t2[i], m));
                lemma_same_level_trans(t1[i], t2[i + 1], m);
                lemma_same_level_trans(t1[i], m, t2[i]);
            }
        }
    }
}

/// Measuring a channel twice gives the same loud peak, and loudest blocks of
/// the same number and the same RMS place by place: what the channel's DR is
/// computed from depends on its blocks alone.
pub proof fn lemma_loudness_determined(
    blocks: Seq<BlockStats>,
    peak_a: u64,
    loud_a: Seq<BlockStats>,
    peak_b: u64,
    loud_b: Seq<BlockStats>,
)
    requires
        all_wf(blocks),
        loudness_of(blocks, peak_a, loud_a),
        loudness_of(blocks, peak_b, loud_b),
    ensures
        peak_a == peak_b,
        loud_a.len() == loud_b.len(),
        forall|k: int| 0 <= k < loud_a.len() ==> same_level(#[trigger] loud_a[k], loud_b[k]),
{
    let total = blocks.len() as int;
    let t1 = choose|t: Seq<BlockStats>|
        sorted_by_rms(t, blocks) && loud_a == #[trigger] t.subrange(total - top_count(total), total);
    let t2 = choose|t: Seq<BlockStats>|
        sorted_by_rms(t, blocks) && loud_b == #[trigger] t.subrange(total - top_count(total), total);
    assert(t1.to_multiset().len() == blocks.to_multiset().len());
    assert(t2.to_multiset().len() == blocks.to_multiset().len());
    lemma_perm_wf(t1, blocks);
    lemma_perm_wf(t2, blocks);
    lemma_sorted_levels_agree(t1, t2);
    let start = total - top_count(total);
    assert forall|k: int| 0 <= k < loud_a.len() implies same_level(#[trigger] loud_a[k], loud_b[k]) by {
        assert(loud_a[k] == t1[start + k]);
        assert(loud_b[k] == t2[start + k]);
    }
}

} // verus!
