//! Splitting a channel into blocks and measuring each block.
use vstd::prelude::*;

verus! {

/// Length of one analysis block, in seconds.
pub const BLOCK_SECONDS: u64 = 3;

/// Samples per block for a stream at `sample_rate` Hz: three seconds of
/// audio, and never less than one sample.
pub open spec fn block_len_spec(sample_rate: int) -> int {
    if sample_rate == 0 {
        1
    } else {
        BLOCK_SECONDS * sample_rate
    }
}

/// Number of samples in one block: `round(3 * sample_rate)`, kept at one
/// at least so that a stream with an unknown rate still forms blocks.
pub fn block_size_for_sample_rate(sample_rate: u32) -> (r: u64)
    ensures
        r as int == block_len_spec(sample_rate as int),
        r >= 1,
{
    if sample_rate == 0 {
        1
    } else {
        BLOCK_SECONDS * (sample_rate as u64)
    }
}

/// Magnitude of one raw sample.
pub open spec fn magnitude(x: i32) -> int {
    if x < 0 {
        -(x as int)
    } else {
        x as int
    }
}

/// Sum of the squared samples.
pub open spec fn energy(s: Seq<i32>) -> int
    decreases s.len(),
{
    if s.len() == 0 {
        0
    } else {
        energy(s.drop_last()) + (s.last() as int) * (s.last() as int)
    }
}

/// Largest sample magnitude, zero for no samples.
pub open spec fn peak(s: Seq<i32>) -> int
    decreases s.len(),
{
    if s.len() == 0 {
        0
    } else {
        let p = peak(s.drop_last());
        if magnitude(s.last()) > p {
            magnitude(s.last())
        } else {
            p
        }
    }
}

/// Largest square of a 32-bit sample.
pub open spec fn max_square() -> int {
    0x4000_0000_0000_0000
}

/// Measurements of one block, in raw sample units.
///
/// With `scale = 2^(bit_depth - 1)` the block's RMS is
/// `sqrt(2 * sum_sq / (len * scale^2))` and its peak is `peak / scale`.
#[derive(Clone, Copy, Debug, PartialEq, Eq)]
pub struct BlockStats {
    /// Sum of the squared samples.
    pub sum_sq: u128,
    /// Largest sample magnitude.
    pub peak: u64,
    /// Number of samples.
    pub len: u64,
}

impl BlockStats {
    /// A measurement that some non-empty block of samples can have.
    pub open spec fn wf(&self) -> bool {
        &&& self.len >= 1
        &&& self.sum_sq <= self.len * max_square()
        &&& self.peak <= 0x8000_0000
    }

    /// The measurement of the block `s`.
    pub open spec fn measures(&self, s: Seq<i32>) -> bool {
        &&& self.len == s.len()
        &&& self.sum_sq == energy(s)
        &&& self.peak == peak(s)
    }
}

/// Why an analysis step refused its input.
#[derive(Clone, Copy, Debug, PartialEq, Eq)]
pub enum DrError {
    /// A block with no samples was handed to the statistics.
    InvalidArgument,
}

pub(crate) proof fn lemma_square_bound(x: i32)
    ensures
        0 <= (x as int) * (x as int) <= max_square(),
        magnitude(x) <= 0x8000_0000,
{
    assert(0 <= (x as int) * (x as int) <= max_square()) by (nonlinear_arith)
        requires
            -0x8000_0000 <= x as int <= 0x7fff_ffff,
    ;
}

/// Energy and peak of a non-empty block; an empty block is refused.
pub fn compute_block_stats(samples: &Vec<i32>) -> (r: Result<BlockStats, DrError>)
    ensures
        samples@.len() == 0 ==> r == Err::<BlockStats, DrError>(DrError::InvalidArgument),
        samples@.len() > 0 ==> r is Ok && r->Ok_0.measures(samples@) && r->Ok_0.wf(),
{
    if samples.len() == 0 {
        return Err(DrError::InvalidArgument);
    }
    let mut sum_sq: u128 = 0;
    let mut pk: u64 = 0;
    let mut i: usize = 0;
    while i < samples.len()
        invariant
            i <= samples@.len(),
            sum_sq == energy(samples@.take(i as int)),
            pk == peak(samples@.take(i as int)),
            sum_sq <= i * max_square(),
            pk <= 0x8000_0000,
        decreases samples@.len() - i,
    {
        let x = samples[i];
        proof {
            lemma_square_bound(x);
            assert(samples@.take(i + 1).drop_last() == samples@.take(i as int));
            assert((i + 1) * max_square() == i * max_square() + max_square()) by (nonlinear_arith);
        }
        let wide = x as i64;
        sum_sq = sum_sq + ((wide * wide) as u128);
        let m: u64 = if x < 0 { (-wide) as u64 } else { wide as u64 };
        if m > pk {
            pk = m;
        }
        i = i + 1;
    }
    proof {
        assert(samples@.take(i as int) == samples@);
    }
    Ok(BlockStats { sum_sq, peak: pk, len: samples.len() as u64 })
}

} // verus!
