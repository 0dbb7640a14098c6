//! The integer side of zero-latency partitioned convolution: how an impulse
//! response is split across the three stages, when each FFT stage runs its
//! per-block work, where a stage reads its delayed output, and which source
//! channel of an impulse response feeds each engine.
//!
//! A stage's latency in samples equals the offset of its segment of the
//! impulse response; that is what lets the stages sum to the full
//! convolution. The spectral arithmetic itself is floating point and stays
//! outside the library.
use vstd::prelude::*;

verus! {

/// Taps covered by the zero-latency time-domain head (and block size of the
/// short FFT stage).
pub const SHORT_BLOCK_SIZE: usize = 32;

/// Block size of the long FFT stage; the short stage covers taps up to here.
pub const LONG_BLOCK_SIZE: usize = 512;

/// Phase offset of the long stage's block schedule: half a short block, so
/// that the long stage never runs its block work on the sample where the
/// short stage runs its own.
pub const LONG_STAGE_PHASE_OFFSET: usize = SHORT_BLOCK_SIZE / 2;

/// Whether a stage with blocks of `block` samples, whose schedule starts
/// `offset` samples early, completes a block on the sample that follows the
/// first `t` samples it processed.
pub open spec fn completes_block(block: int, offset: int, t: int) -> bool {
    (offset + t + 1) % block == 0
}

/// The block timing of one partitioned stage: its block size, its phase
/// offset, how many samples it has processed, and how far the current input
/// block has filled.
pub struct BlockSchedule {
    block_size: usize,
    phase_offset: usize,
    filled: usize,
    samples_processed: u64,
}

impl BlockSchedule {
    /// Samples per block.
    pub closed spec fn block(self) -> nat {
        self.block_size as nat
    }

    /// How many samples early the block boundaries sit.
    pub closed spec fn offset(self) -> nat {
        self.phase_offset as nat
    }

    /// Samples processed so far.
    pub closed spec fn processed(self) -> nat {
        self.samples_processed as nat
    }

    /// A non-empty block, an offset inside it, and a fill level that counts
    /// the offset's zeros and every processed sample since the last block.
    pub closed spec fn wf(self) -> bool {
        &&& self.block_size > 0
        &&& self.phase_offset < self.block_size
        &&& self.filled as int == (self.phase_offset + self.samples_processed) % (
        self.block_size as int)
    }

    /// A schedule for blocks of `block_size` samples, shifted `phase_offset`
    /// samples earlier as if that many zeros had already been consumed.
    pub fn new(block_size: usize, phase_offset: usize) -> (s: Self)
        requires
            block_size > 0,
            phase_offset < block_size,
        ensures
            s.wf(),
            s.block() == block_size,
            s.offset() == phase_offset,
            s.processed() == 0,
    {
        proof {
            vstd::arithmetic::div_mod::lemma_small_mod(phase_offset as nat, block_size as nat);
        }
        BlockSchedule { block_size, phase_offset, filled: phase_offset, samples_processed: 0 }
    }

    /// How many more samples until the block work runs (1: on the next one).
    pub fn samples_until_next_block(&self) -> (n: usize)
        requires
            self.wf(),
        ensures
            n == self.block() - (self.offset() + self.processed()) % self.block(),
            1 <= n <= self.block(),
    {
        self.block_size - self.filled
    }

    /// The fixed processing delay of the stage: one block.
    pub fn latency_samples(&self) -> (n: usize)
        ensures
            n == self.block(),
    {
        self.block_size
    }

    /// Account for one input sample. Gives the index into the last block's
    /// output that this sample reads (none during the first block, whose
    /// output is still silence), and whether the sample completes a block, so
    /// that the block work runs on it.
    pub fn advance(&mut self) -> (step: (Option<usize>, bool))
        requires
            old(self).wf(),
            old(self).processed() < u64::MAX,
        ensures
            final(self).wf(),
            final(self).block() == old(self).block(),
            final(self).offset() == old(self).offset(),
            final(self).processed() == old(self).processed() + 1,
            step.0 == (if old(self).processed() >= old(self).block() {
                Some(((old(self).processed() + old(self).offset()) % old(self).block()) as usize)
            } else {
                None::<usize>
            }),
            step.1 == completes_block(
                old(self).block() as int,
                old(self).offset() as int,
                old(self).processed() as int,
            ),
    {
        let t = self.samples_processed;
        let block = self.block_size as u64;
        let offset = self.phase_offset as u64;
        let read = if t >= block {
            let r = t % block;
            let idx = if r >= block - offset {
                r - (block - offset)
            } else {
                r + offset
            };
            proof {
                vstd::arithmetic::div_mod::lemma_small_mod(offset as nat, block as nat);
                vstd::arithmetic::div_mod::lemma_add_mod_noop(t as int, offset as int, block as int);
                if r >= block - offset {
                    vstd::arithmetic::div_mod::lemma_fundamental_div_mod_converse(
                        r + offset,
                        block as int,
                        1,
                        idx as int,
                    );
                } else {
                    vstd::arithmetic::div_mod::lemma_small_mod((r + offset) as nat, block as nat);
                }
            }
            Some(idx as usize)
        } else {
            None
        };
        let ghost x: int = (self.phase_offset + self.samples_processed) as int;
        let ghost b: int = self.block_size as int;
        self.samples_processed = t + 1;
        let completes = self.filled + 1 == self.block_size;
        proof {
            vstd::arithmetic::div_mod::lemma_add_mod_noop_right(1, x, b);
            if completes {
                vstd::arithmetic::div_mod::lemma_mod_multiples_basic(1, b);
            } else {
                vstd::arithmetic::div_mod::lemma_small_mod((self.filled + 1) as nat, b as nat);
            }
            assert(x + 1 == self.phase_offset + self.samples_processed);
        }
        if completes {
            self.filled = 0;
        } else {
            self.filled = self.filled + 1;
        }
        (read, completes)
    }
}

/// Two stages whose block sizes divide one another, and whose phase offsets
/// differ by anything but a multiple of the smaller block, never complete a
/// block on the same sample.
pub proof fn lemma_offset_stages_never_coincide(
    short_block: int,
    k: int,
    short_offset: int,
    long_offset: int,
    t: int,
)
    requires
        short_block > 0,
        k > 0,
        t >= 0,
        short_offset >= 0,
        long_offset >= 0,
        (long_offset - short_offset) % short_block != 0,
    ensures
        !(completes_block(short_block, short_offset, t) && completes_block(
            short_block * k,
            long_offset,
            t,
        )),
{
    let x = long_offset + t + 1;
    let y = short_offset + t + 1;
    if completes_block(short_block, short_offset, t) && completes_block(short_block * k, long_offset, t) {
        vstd::arithmetic::div_mod::lemma_mod_mod(x, short_block, k);
        vstd::arithmetic::div_mod::lemma_fundamental_div_mod(x, short_block);
        vstd::arithmetic::div_mod::lemma_fundamental_div_mod(y, short_block);
        let q = x / short_block - y / short_block;
        assert(long_offset - short_offset == q * short_block) by (nonlinear_arith)
            requires
                x == short_block * (x / short_block) + 0,
                y == short_block * (y / short_block) + 0,
                q == x / short_block - y / short_block,
                long_offset - short_offset == x - y,
        ;
        vstd::arithmetic::div_mod::lemma_mod_multiples_basic(q, short_block);
    }
}

/// The short and long stages of a convolver engine, as scheduled, never run
/// their block work on the same sample.
pub proof fn lemma_engine_stage_bursts_apart(t: nat)
    ensures
        !(completes_block(SHORT_BLOCK_SIZE as int, 0, t as int) && completes_block(
            LONG_BLOCK_SIZE as int,
            LONG_STAGE_PHASE_OFFSET as int,
            t as int,
        )),
{
    assert((16int - 0) % 32 == 16);
    lemma_offset_stages_never_coincide(32, 16, 0, 16, t as int);
}

/// The stage segments of an impulse response of `len` taps, as half-open
/// ranges of tap indices: the head takes the taps below the short block, the
/// short stage those from the short block up to the long block, and the long
/// stage the rest. A stage whose range is empty gets no taps.
pub fn stage_segments(len: usize) -> (seg: ((usize, usize), (usize, usize), (usize, usize)))
    ensures
        seg.0 == (0usize, if len < SHORT_BLOCK_SIZE { len } else { SHORT_BLOCK_SIZE }),
        seg.1 == (seg.0.1, if len < LONG_BLOCK_SIZE { len } else { LONG_BLOCK_SIZE }),
        seg.2 == (seg.1.1, len),
{
    let head_end = if len < SHORT_BLOCK_SIZE { len } else { SHORT_BLOCK_SIZE };
    let short_end = if len < LONG_BLOCK_SIZE { len } else { LONG_BLOCK_SIZE };
    ((0, head_end), (head_end, short_end), (short_end, len))
}

/// The segments tile the impulse response in order, and a stage with taps
/// starts at its own latency: tap 0 for the zero-latency head, one short
/// block for the short stage, one long block for the long stage.
pub proof fn lemma_segments_align_with_latency(len: usize)
    ensures
        ({
            let h_end = if len < SHORT_BLOCK_SIZE { len } else { SHORT_BLOCK_SIZE };
            let s_end = if len < LONG_BLOCK_SIZE { len } else { LONG_BLOCK_SIZE };
            &&& 0 <= h_end <= s_end <= len
            &&& h_end < s_end ==> h_end == SHORT_BLOCK_SIZE
            &&& s_end < len ==> s_end == LONG_BLOCK_SIZE
        }),
{
}

/// Which channel of an impulse response with `source_channels` channels
/// feeds engine `c`: a mono response feeds every engine; otherwise engine `c`
/// takes channel `c`, and engines past the last channel take the last one.
pub fn ir_source_channel(c: usize, source_channels: usize) -> (sc: usize)
    requires
        source_channels >= 1,
    ensures
        sc == (if source_channels == 1 {
            0
        } else if c < source_channels - 1 {
            c
        } else {
            (source_channels - 1) as usize
        }),
        sc < source_channels,
{
    if source_channels == 1 {
        0
    } else if c < source_channels - 1 {
        c
    } else {
        source_channels - 1
    }
}

} // verus!
