//! Block schedule of offline rendering: a render of any length is driven
//! through a graph in blocks of at most `DEFAULT_MAX_BLOCK_SIZE` frames.
use vstd::prelude::*;

verus! {

/// Largest number of frames a graph processes in one block.
pub const DEFAULT_MAX_BLOCK_SIZE: usize = 512;

/// The longest of `lengths` (0 when there are none).
pub open spec fn max_len(lengths: Seq<usize>) -> nat
    decreases lengths.len(),
{
    if lengths.len() == 0 {
        0
    } else {
        let rest = max_len(lengths.drop_last());
        if lengths.last() > rest {
            lengths.last() as nat
        } else {
            rest
        }
    }
}

/// Number of frames a render produces: the longest input followed by `tail`
/// frames of silence.
pub fn render_length(input_lengths: &[usize], tail: usize) -> (total: usize)
    requires
        max_len(input_lengths@) + tail <= usize::MAX,
    ensures
        total == max_len(input_lengths@) + tail,
{
    let mut longest: usize = 0;
    let mut i: usize = 0;
    while i < input_lengths.len()
        invariant
            0 <= i <= input_lengths@.len(),
            longest == max_len(input_lengths@.subrange(0, i as int)),
        decreases input_lengths@.len() - i,
    {
        assert(input_lengths@.subrange(0, i + 1).drop_last() =~= input_lengths@.subrange(0, i as int));
        if input_lengths[i] > longest {
            longest = input_lengths[i];
        }
        i += 1;
    }
    assert(input_lengths@.subrange(0, i as int) =~= input_lengths@);
    longest + tail
}

/// Length of the block that starts at frame `pos` of a render of `total`
/// frames: a full block while one fits, then the remainder, then nothing.
pub open spec fn block_len(pos: nat, total: nat) -> nat {
    if pos >= total {
        0
    } else if total - pos < DEFAULT_MAX_BLOCK_SIZE {
        (total - pos) as nat
    } else {
        DEFAULT_MAX_BLOCK_SIZE as nat
    }
}

/// Length of the block that starts at frame `pos` of a render of `total`
/// frames; `None` once the render is complete.
pub fn next_block(pos: usize, total: usize) -> (n: Option<usize>)
    ensures
        match n {
            Some(len) => pos < total && len == block_len(pos as nat, total as nat),
            None => pos >= total,
        },
{
    if pos >= total {
        None
    } else if total - pos < DEFAULT_MAX_BLOCK_SIZE {
        Some(total - pos)
    } else {
        Some(DEFAULT_MAX_BLOCK_SIZE)
    }
}

/// Frames rendered and blocks used when following the block schedule from
/// frame `pos` to the end.
pub open spec fn schedule_from(pos: nat, total: nat) -> (nat, nat)
    decreases total - pos,
{
    if pos >= total {
        (0, 0)
    } else {
        let rest = schedule_from(pos + block_len(pos, total), total);
        (block_len(pos, total) + rest.0, 1 + rest.1)
    }
}

/// Following the block schedule renders every remaining frame exactly once,
/// in `ceil(remaining / DEFAULT_MAX_BLOCK_SIZE)` blocks.
pub proof fn lemma_schedule_covers_render(pos: nat, total: nat)
    requires
        pos <= total,
    ensures
        schedule_from(pos, total).0 == total - pos,
        schedule_from(pos, total).1 == ((total - pos) + DEFAULT_MAX_BLOCK_SIZE - 1) / (
        DEFAULT_MAX_BLOCK_SIZE as int),
    decreases total - pos,
{
    if pos < total {
        lemma_schedule_covers_render(pos + block_len(pos, total), total);
    }
}

} // verus!
