//! The checks an in-memory audio buffer passes before it becomes an asset,
//! and the reordering of its samples from frame-major to channel-major.
//! Samples are binary32 bit patterns; resampling happens outside.
use vstd::prelude::*;

verus! {

/// The WAV reader's error type, carried through unread.
#[verifier::external_type_specification]
#[verifier::external_body]
pub struct ExHoundError(hound::Error);

/// Failure modes of asset loading.
#[derive(Debug)]
pub enum AssetError {
    /// WAV open, decode or format failure.
    Decode(hound::Error),
    /// The buffer had no frames, no channels, or a length that is not a
    /// multiple of the channel count.
    Empty,
    /// The asset declared a sample rate of 0.
    ZeroSampleRate,
    /// The graph rate is not yet configured, so the asset cannot be
    /// conformed to it.
    GraphRateUnset { asset: u32 },
    /// A pre-built asset was published into a handle whose graph rate
    /// differs from the asset's.
    SampleRateMismatch { asset: u32, graph: u32 },
}

/// Checks an interleaved buffer of `len` samples over `channels` channels at
/// `rate` Hz, to be conformed to `graph_rate` Hz, in the order the loader
/// does: an empty buffer, no channels or a ragged buffer is `Empty`; then a
/// zero asset rate is `ZeroSampleRate`; then a zero graph rate is
/// `GraphRateUnset`. Otherwise it gives the number of frames.
pub fn check_interleaved(len: usize, channels: usize, rate: u32, graph_rate: u32) -> (r: Result<
    usize,
    AssetError,
>)
    ensures
        (len == 0 || channels == 0 || len % channels != 0) ==> (r matches Err(AssetError::Empty)),
        !(len == 0 || channels == 0 || len % channels != 0) && rate == 0 ==> (r matches Err(
            AssetError::ZeroSampleRate,
        )),
        !(len == 0 || channels == 0 || len % channels != 0) && rate != 0 && graph_rate == 0 ==> (r
            matches Err(AssetError::GraphRateUnset { asset }) && asset == rate),
        r is Ok <==> (!(len == 0 || channels == 0 || len % channels != 0) && rate != 0 && graph_rate
            != 0),
        r matches Ok(frames) ==> frames == len / channels && frames > 0,
{
    if len == 0 {
        return Err(AssetError::Empty);
    }
    if channels == 0 || len % channels != 0 {
        return Err(AssetError::Empty);
    }
    let frames = len / channels;
    proof {
        vstd::arithmetic::div_mod::lemma_fundamental_div_mod(len as int, channels as int);
    }
    if frames == 0 {
        proof {
            assert((channels as int) * (frames as int) == 0) by (nonlinear_arith)
                requires
                    frames == 0,
            ;
        }
        return Err(AssetError::Empty);
    }
    if rate == 0 {
        return Err(AssetError::ZeroSampleRate);
    }
    if graph_rate == 0 {
        return Err(AssetError::GraphRateUnset { asset: rate });
    }
    Ok(frames)
}

/// Whether an asset built at `asset_rate` Hz may be published into a handle
/// whose graph runs at `graph_rate` Hz (0: not configured yet). Assets are
/// conformed when they are built, so only a configured, different graph rate
/// refuses one.
pub fn check_publish(asset_rate: u32, graph_rate: u32) -> (r: Result<(), AssetError>)
    ensures
        r is Ok <==> (graph_rate == 0 || asset_rate == graph_rate),
        r is Err ==> (r matches Err(AssetError::SampleRateMismatch { asset, graph }) && asset
            == asset_rate && graph == graph_rate),
{
    if graph_rate != 0 && asset_rate != graph_rate {
        return Err(AssetError::SampleRateMismatch { asset: asset_rate, graph: graph_rate });
    }
    Ok(())
}

proof fn lemma_cell_in_range(c: int, f: int, channels: int, frames: int)
    requires
        0 <= c < channels,
        0 <= f < frames,
    ensures
        0 <= c * frames + f < channels * frames,
        0 <= f * channels + c < frames * channels,
        channels * frames == frames * channels,
{
    assert(c * frames + f < (c + 1) * frames) by (nonlinear_arith)
        requires
            0 <= f < frames,
    ;
    assert((c + 1) * frames <= channels * frames) by (nonlinear_arith)
        requires
            c + 1 <= channels,
            0 <= frames,
    ;
    assert(f * channels + c < (f + 1) * channels) by (nonlinear_arith)
        requires
            0 <= c < channels,
    ;
    assert((f + 1) * channels <= frames * channels) by (nonlinear_arith)
        requires
            f + 1 <= frames,
            0 <= channels,
    ;
    assert(0 <= c * frames) by (nonlinear_arith)
        requires
            0 <= c,
            0 <= frames,
    ;
    assert(0 <= f * channels) by (nonlinear_arith)
        requires
            0 <= f,
            0 <= channels,
    ;
    assert(channels * frames == frames * channels) by (nonlinear_arith);
}

/// Reorders an interleaved (frame-major) buffer over `channels` channels
/// into channel-major order: all of channel 0, then all of channel 1, ...
pub fn deinterleave(samples: &Vec<u32>, channels: usize) -> (out: Vec<u32>)
    requires
        channels > 0,
        samples.len() % channels == 0,
    ensures
        out@.len() == samples@.len(),
        forall|c: int, f: int|
            0 <= c < channels && 0 <= f < (samples.len() / channels) as int ==> #[trigger] out@[c
                * ((samples.len() / channels) as int) + f] == samples@[f * channels + c],
{
    let frames = samples.len() / channels;
    let ghost n = samples@.len() as int;
    let ghost fr = frames as int;
    let ghost ch = channels as int;
    proof {
        assert(fr * ch == n) by (nonlinear_arith)
            requires
                fr == n / ch,
                n % ch == 0,
                ch > 0,
        ;
    }
    let mut out: Vec<u32> = Vec::with_capacity(samples.len());
    let mut c: usize = 0;
    while c < channels
        invariant
            fr * ch == n,
            n == samples@.len(),
            n <= usize::MAX,
            fr == frames,
            ch == channels,
            0 <= c <= channels,
            out@.len() == c * fr,
            forall|c2: int, f2: int|
                0 <= c2 < c && 0 <= f2 < fr ==> #[trigger] out@[c2 * fr + f2] == samples@[f2 * ch + c2],
        decreases channels - c,
    {
        let mut f: usize = 0;
        while f < frames
            invariant
                fr * ch == n,
                n == samples@.len(),
                n <= usize::MAX,
                fr == frames,
                ch == channels,
                0 <= c < channels,
                0 <= f <= frames,
                out@.len() == c * fr + f,
                forall|c2: int, f2: int|
                    0 <= c2 < c && 0 <= f2 < fr ==> #[trigger] out@[c2 * fr + f2] == samples@[f2 * ch + c2],
                forall|f2: int| 0 <= f2 < f ==> #[trigger] out@[c * fr + f2] == samples@[f2 * ch + c],
            decreases frames - f,
        {
            proof {
                lemma_cell_in_range(c as int, f as int, ch, fr);
                assert((f as int) * (channels as int) + (c as int) < n);
                assert(0 <= (f as int) * (channels as int));
            }
            let x = samples[f * channels + c];
            let ghost before = out@;
            out.push(x);
            proof {
                assert forall|c2: int, f2: int| 0 <= c2 < c && 0 <= f2 < fr implies #[trigger] out@[c2 * fr
                    + f2] == samples@[f2 * ch + c2] by {
                    lemma_cell_in_range(c2, f2, ch, fr);
                    assert(c2 * fr + f2 < c * fr) by (nonlinear_arith)
                        requires
                            0 <= c2 < c,
                            0 <= f2 < fr,
                    ;
                    assert(out@[c2 * fr + f2] == before[c2 * fr + f2]);
                }
                assert forall|f2: int| 0 <= f2 < f + 1 implies #[trigger] out@[c * fr + f2] == samples@[f2 * ch
                    + c] by {
                    if f2 < f {
                        assert(out@[c * fr + f2] == before[c * fr + f2]);
                    }
                }
            }
            f += 1;
        }
        proof {
            assert((c + 1) * fr == c * fr + fr) by (nonlinear_arith);
            assert forall|c2: int, f2: int| 0 <= c2 < c + 1 && 0 <= f2 < fr implies #[trigger] out@[c2 * fr
                + f2] == samples@[f2 * ch + c2] by {}
        }
        c += 1;
    }
    proof {
        assert(out@.len() == n) by {
            assert(c * fr == ch * fr);
            assert(ch * fr == fr * ch) by (nonlinear_arith);
        }
    }
    out
}

} // verus!
