//! Cutting interleaved frames into per-channel blocks, in lock-step.
use vstd::prelude::*;
use crate::blocks::{block_len_spec, block_size_for_sample_rate, energy, magnitude, max_square, peak, BlockStats};
use crate::channel::all_wf;

verus! {

/// The samples of block `j` of a channel holding `s`, cut every `len` samples;
/// the last block may be shorter.
pub open spec fn block_at(s: Seq<i32>, len: int, j: int) -> Seq<i32> {
    let end = if j * len + len < s.len() {
        j * len + len
    } else {
        s.len() as int
    };
    s.subrange(j * len, end)
}

/// `count` blocks of `len` samples are just enough to hold `n` samples.
pub open spec fn covers(count: int, n: int, len: int) -> bool {
    if n == 0 {
        count == 0
    } else {
        (count - 1) * len < n <= count * len
    }
}

/// `blocks` measure, in order, the blocks that cutting `s` every `len`
/// samples gives: no sample is dropped or counted twice.
pub open spec fn segmented(blocks: Seq<BlockStats>, s: Seq<i32>, len: int) -> bool {
    &&& covers(blocks.len() as int, s.len() as int, len)
    &&& forall|j: int| 0 <= j < blocks.len() ==> (#[trigger] blocks[j]).measures(block_at(s, len, j))
}

/// The measurement of no samples.
pub open spec fn empty_stats() -> BlockStats {
    BlockStats { sum_sq: 0, peak: 0, len: 0 }
}

/// Splits the samples of every channel into blocks of a fixed length.
///
/// Frames come in one at a time; a block is closed on all channels at once
/// when the open one reaches the block length, and `finish` closes the last,
/// shorter block if it holds any samples.
pub struct Segmenter {
    block_len: u64,
    channels: usize,
    open: Vec<BlockStats>,
    closed: Vec<Vec<BlockStats>>,
    samples: Ghost<Seq<Seq<i32>>>,
}

proof fn lemma_mul_le(a: int, b: int, len: int)
    requires
        a <= b,
        len >= 0,
    ensures
        a * len <= b * len,
{
    assert(a * len <= b * len) by (nonlinear_arith)
        requires
            a <= b,
            len >= 0,
    ;
}

proof fn lemma_next_block(j: int, len: int)
    ensures
        (j + 1) * len == j * len + len,
        (j - 1) * len == j * len - len,
{
    assert((j + 1) * len == j * len + len) by (nonlinear_arith);
    assert((j - 1) * len == j * len - len) by (nonlinear_arith);
}

proof fn lemma_push_stats(b: BlockStats, s: Seq<i32>, x: i32)
    requires
        b.measures(s),
    ensures
        energy(s.push(x)) == b.sum_sq + (x as int) * (x as int),
        peak(s.push(x)) == if magnitude(x) > b.peak {
            magnitude(x)
        } else {
            b.peak as int
        },
{
    assert(s.push(x).drop_last() == s);
}

proof fn lemma_push_keeps_closed(s: Seq<i32>, x: i32, b: Seq<BlockStats>, n: int, len: int)
    requires
        len >= 1,
        0 <= n,
        n * len <= s.len(),
        b.len() == n,
        forall|j: int| 0 <= j < n ==> (#[trigger] b[j]).measures(s.subrange(j * len, j * len + len)),
    ensures
        forall|j: int|
            0 <= j < n ==> (#[trigger] b[j]).measures(s.push(x).subrange(j * len, j * len + len)),
{
    assert forall|j: int| 0 <= j < n implies (#[trigger] b[j]).measures(
        s.push(x).subrange(j * len, j * len + len),
    ) by {
        lemma_mul_le(j + 1, n, len);
        lemma_next_block(j, len);
        lemma_mul_le(0, j, len);
        assert(s.push(x).subrange(j * len, j * len + len) =~= s.subrange(j * len, j * len + len));
    }
}

impl Segmenter {
    /// The samples of each channel taken in so far.
    pub closed spec fn samples(&self) -> Seq<Seq<i32>> {
        self.samples@
    }

    /// The block length.
    pub closed spec fn block_len(&self) -> int {
        self.block_len as int
    }

    /// The number of channels.
    pub closed spec fn channels(&self) -> int {
        self.channels as int
    }

    /// Channel `c` has `n` closed blocks and `fill` samples in its open block,
    /// and each measures its part of the channel's samples.
    pub closed spec fn channel_state(&self, c: int, n: int, fill: int) -> bool {
        let len = self.block_len as int;
        let s = self.samples@[c];
        let b = self.closed@[c]@;
        let o = self.open@[c];
        &&& b.len() == n
        &&& o.len == fill
        &&& s.len() == n * len + fill
        &&& o.measures(s.subrange(n * len, s.len() as int))
        &&& o.sum_sq <= o.len * max_square()
        &&& o.peak <= 0x8000_0000
        &&& all_wf(b)
        &&& forall|j: int| 0 <= j < n ==> (#[trigger] b[j]).measures(s.subrange(j * len, j * len + len))
    }

    /// The shape of the state, whatever the samples.
    pub closed spec fn shaped(&self) -> bool {
        &&& self.channels >= 1
        &&& self.block_len >= 1
        &&& self.open@.len() == self.channels
        &&& self.closed@.len() == self.channels
        &&& self.samples@.len() == self.channels
    }

    /// The closed blocks and the open one match the samples taken in.
    pub closed spec fn wf(&self) -> bool {
        let n = self.closed@[0].len() as int;
        let fill = self.open@[0].len as int;
        &&& self.shaped()
        &&& 0 <= fill < self.block_len
        &&& forall|c: int|
            0 <= c < self.channels ==> #[trigger] self.channel_state(c, n, fill)
    }

    /// A segmenter for `channels` channels at `sample_rate` Hz, with no
    /// samples taken in.
    pub fn new(channels: usize, sample_rate: u32) -> (r: Segmenter)
        requires
            channels >= 1,
        ensures
            r.wf(),
            r.channels() == channels,
            r.block_len() == block_len_spec(sample_rate as int),
            r.samples() == Seq::new(channels as nat, |c: int| Seq::<i32>::empty()),
    {
        let block_len = block_size_for_sample_rate(sample_rate);
        let mut open: Vec<BlockStats> = Vec::new();
        let mut closed: Vec<Vec<BlockStats>> = Vec::new();
        let mut c: usize = 0;
        while c < channels
            invariant
                c <= channels,
                open@.len() == c,
                closed@.len() == c,
                forall|k: int| 0 <= k < c ==> #[trigger] open@[k] == empty_stats(),
                forall|k: int| 0 <= k < c ==> (#[trigger] closed@[k]).len() == 0,
            decreases channels - c,
        {
            open.push(BlockStats { sum_sq: 0, peak: 0, len: 0 });
            closed.push(Vec::new());
            c = c + 1;
        }
        let ghost samples = Seq::new(channels as nat, |c: int| Seq::<i32>::empty());
        let r = Segmenter { block_len, channels, open, closed, samples: Ghost(samples) };
        proof {
            assert forall|c: int| 0 <= c < channels implies (#[trigger] samples[c]).subrange(
                0,
                0,
            ) =~= samples[c] by {}
        }
        r
    }

    /// Takes in one frame: one sample per channel. A frame of any other
    /// length (the ragged end of a stream) is dropped. A block that this
    /// fills is closed on every channel.
    pub fn push_frame(&mut self, frame: &Vec<i32>)
        requires
            old(self).wf(),
        ensures
            final(self).wf(),
            final(self).channels() == old(self).channels(),
            final(self).block_len() == old(self).block_len(),
            frame@.len() == old(self).channels() ==> final(self).samples() == Seq::new(
                old(self).channels() as nat,
                |c: int| old(self).samples()[c].push(frame@[c]),
            ),
            frame@.len() != old(self).channels() ==> final(self).samples() == old(self).samples(),
    {
        if frame.len() != self.channels {
            return;
        }
        let ghost len = self.block_len as int;
        let ghost n = self.closed@[0].len() as int;
        let ghost old_samples = self.samples@;
        let ghost old_open = self.open@;
        let ghost target = Seq::new(self.channels as nat, |c: int| old_samples[c].push(frame@[c]));
        let mut c: usize = 0;
        while c < self.channels
            invariant
                self.channels == frame@.len(),
                self.open@.len() == self.channels,
                c <= self.channels,
                self.samples@.len() == self.channels,
                forall|k: int| 0 <= k < c ==> #[trigger] self.samples@[k] == target[k],
                forall|k: int| c <= k < self.channels ==> #[trigger] self.samples@[k] == old_samples[k],
                forall|k: int| c <= k < self.channels ==> #[trigger] self.open@[k] == old_open[k],
                forall|k: int|
                    0 <= k < c ==> (#[trigger] self.open@[k]).len == old_open[k].len + 1,
                forall|k: int|
                    #![trigger self.open@[k]]
                    0 <= k < c ==> {
                        let s = self.samples@[k];
                        let o = self.open@[k];
                        &&& o.measures(s.subrange(n * len, s.len() as int))
                        &&& o.sum_sq <= o.len * max_square()
                        &&& o.peak <= 0x8000_0000
                    },
                old(self).wf(),
                len == old(self).block_len,
                n == old(self).closed@[0].len(),
                old_samples == old(self).samples@,
                old_open == old(self).open@,
                self.block_len == old(self).block_len,
                self.closed == old(self).closed,
                self.channels == old(self).channels,
                target == Seq::new(self.channels as nat, |c: int| old_samples[c].push(frame@[c])),
            decreases self.channels - c,
        {
            let x = frame[c];
            let o = self.open[c];
            let ghost s = old_samples[c as int];
            proof {
                assert(old(self).channel_state(c as int, n, old_open[0].len as int));
                assert(self.samples@[c as int] == s);
                crate::blocks::lemma_square_bound(x);
                lemma_push_stats(o, s.subrange(n * len, s.len() as int), x);
                assert(s.push(x).subrange(n * len, s.len() as int + 1) == s.subrange(n * len, s.len() as int).push(x));
                assert((o.len + 1) * max_square() == o.len * max_square() + max_square()) by (nonlinear_arith);
                assert(o.len < len);
            }
            let wide = x as i64;
            let m: u64 = if x < 0 { (-wide) as u64 } else { wide as u64 };
            let next = BlockStats {
                sum_sq: o.sum_sq + ((wide * wide) as u128),
                peak: if m > o.peak { m } else { o.peak },
                len: o.len + 1,
            };
            self.open.set(c, next);
            self.samples = Ghost(self.samples@.update(c as int, s.push(x)));
            c = c + 1;
        }
        proof {
            assert(self.samples@ =~= target);
            assert forall|k: int| 0 <= k < self.channels implies #[trigger] self.channel_state(
                k,
                n,
                old_open[0].len + 1,
            ) by {
                assert(old(self).channel_state(k, n, old_open[0].len as int));
                let os = old_samples[k];
                assert(old(self).samples@[k] == os);
                assert(self.open@[k].len == old_open[k].len + 1);
                lemma_push_keeps_closed(os, frame@[k], self.closed@[k]@, n, len);
            }
            assert(self.channel_state(0, n, old_open[0].len + 1));
        }
        if self.open[0].len == self.block_len {
            self.close_blocks();
        }
    }

    /// Closes the open block of every channel; each is exactly full.
    fn close_blocks(&mut self)
        requires
            old(self).shaped(),
            forall|c: int|
                0 <= c < old(self).channels ==> #[trigger] old(self).channel_state(
                    c,
                    old(self).closed@[0].len() as int,
                    old(self).block_len as int,
                ),
        ensures
            final(self).wf(),
            final(self).channels() == old(self).channels(),
            final(self).block_len() == old(self).block_len(),
            final(self).samples() == old(self).samples(),
    {
        let ghost len = self.block_len as int;
        let ghost n = self.closed@[0].len() as int;
        let mut c: usize = 0;
        while c < self.channels
            invariant
                c <= self.channels,
                self.channels == old(self).channels,
                self.block_len == old(self).block_len,
                self.samples == old(self).samples,
                self.open@.len() == self.channels,
                self.closed@.len() == self.channels,
                len == self.block_len,
                n == old(self).closed@[0].len(),
                forall|k: int| c <= k < self.channels ==> #[trigger] self.open@[k] == old(self).open@[k],
                forall|k: int| c <= k < self.channels ==> #[trigger] self.closed@[k] == old(self).closed@[k],
                forall|k: int| 0 <= k < c ==> #[trigger] self.open@[k] == empty_stats(),
                forall|k: int|
                    0 <= k < c ==> (#[trigger] self.closed@[k])@ == old(self).closed@[k]@.push(
                        old(self).open@[k],
                    ),
            decreases self.channels - c,
        {
            let o = self.open[c];
            let mut row = self.closed.remove(c);
            row.push(o);
            self.closed.insert(c, row);
            self.open.set(c, BlockStats { sum_sq: 0, peak: 0, len: 0 });
            proof {
                assert forall|k: int| 0 <= k < self.channels && k != c implies
                    #[trigger] self.closed@[k] == old(self).closed@[k] || k < c by {}
            }
            c = c + 1;
        }
        proof {
            lemma_next_block(n, len);
            assert forall|c: int| 0 <= c < self.channels implies #[trigger] self.channel_state(
                c,
                n + 1,
                0,
            ) by {
                assert(old(self).channel_state(c, n, len));
                let s = self.samples@[c];
                let b = self.closed@[c]@;
                let ob = old(self).closed@[c]@;
                let oo = old(self).open@[c];
                assert(b == ob.push(oo));
                assert(s.subrange((n + 1) * len, s.len() as int) =~= Seq::<i32>::empty());
                assert(energy(Seq::<i32>::empty()) == 0);
                assert(peak(Seq::<i32>::empty()) == 0);
                assert forall|j: int| 0 <= j < n + 1 implies (#[trigger] b[j]).measures(
                    s.subrange(j * len, j * len + len),
                ) by {
                    if j < n {
                        assert(b[j] == ob[j]);
                    } else {
                        assert(b[j] == oo);
                    }
                }
                assert(oo.wf());
                assert forall|j: int| 0 <= j < b.len() implies (#[trigger] b[j]).wf() by {
                    if j < n {
                        assert(b[j] == ob[j]);
                    }
                }
            }
            assert(self.channel_state(0, n + 1, 0));
        }
    }

    /// Ends the stream: closes the open block of every channel if it holds
    /// samples, and hands back each channel's blocks in order.
    pub fn finish(self) -> (r: Vec<Vec<BlockStats>>)
        requires
            self.wf(),
        ensures
            r@.len() == self.channels(),
            forall|c: int|
                0 <= c < self.channels() ==> segmented(
                    (#[trigger] r@[c])@,
                    self.samples()[c],
                    self.block_len(),
                ),
            forall|c: int| 0 <= c < self.channels() ==> all_wf((#[trigger] r@[c])@),
    {
        let ghost len = self.block_len as int;
        let ghost n = self.closed@[0].len() as int;
        let ghost fill = self.open@[0].len as int;
        let fill_exec = self.open[0].len;
        let mut out = self.closed;
        let mut c: usize = 0;
        while c < self.channels
            invariant
                self.wf(),
                c <= self.channels,
                out@.len() == self.channels,
                n == self.closed@[0].len(),
                fill == self.open@[0].len,
                fill_exec == fill,
                len == self.block_len,
                forall|k: int| c <= k < self.channels ==> #[trigger] out@[k] == self.closed@[k],
                forall|k: int|
                    0 <= k < c ==> (#[trigger] out@[k])@ == if fill > 0 {
                        self.closed@[k]@.push(self.open@[k])
                    } else {
                        self.closed@[k]@
                    },
            decreases self.channels - c,
        {
            if fill_exec > 0 {
                let o = self.open[c];
                let mut row = out.remove(c);
                row.push(o);
                out.insert(c, row);
            }
            c = c + 1;
        }
        proof {
            assert forall|k: int| 0 <= k < self.channels implies segmented(
                (#[trigger] out@[k])@,
                self.samples@[k],
                len,
            ) && all_wf(out@[k]@) by {
                assert(self.channel_state(k, n, fill));
                let s = self.samples@[k];
                let b = out@[k]@;
                let cb = self.closed@[k]@;
                let o = self.open@[k];
                lemma_next_block(n, len);
                lemma_mul_le(0, n, len);
                assert forall|j: int| 0 <= j < n implies (#[trigger] b[j]).measures(block_at(s, len, j))
                    && b[j].wf() by {
                    lemma_mul_le(j + 1, n, len);
                    lemma_next_block(j, len);
                    lemma_mul_le(0, j, len);
                    assert(b[j] == cb[j]);
                }
                if fill > 0 {
                    assert(b[n] == o);
                    assert(block_at(s, len, n) == s.subrange(n * len, s.len() as int));
                    assert(o.wf());
                } else if n > 0 {
                    lemma_next_block(n, len);
                }
                assert forall|j: int| 0 <= j < b.len() implies (#[trigger] b[j]).measures(
                    block_at(s, len, j),
                ) by {}
                assert forall|j: int| 0 <= j < b.len() implies (#[trigger] b[j]).wf() by {}
            }
        }
        out
    }
}

} // verus!
