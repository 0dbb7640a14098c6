use oscen::asset::{check_interleaved, check_publish, deinterleave, AssetError};

fn bits(xs: &[f32]) -> Vec<u32> {
    xs.iter().map(|x| x.to_bits()).collect()
}

#[test]
fn asset_from_samples_deinterleaves_to_channel_major() {
    let interleaved = bits(&[1.0, 10.0, 2.0, 20.0, 3.0, 30.0]);
    let frames = check_interleaved(interleaved.len(), 2, 44100, 44100).unwrap();
    assert_eq!(frames, 3);
    let out = deinterleave(&interleaved, 2);
    assert_eq!(out, bits(&[1.0, 2.0, 3.0, 10.0, 20.0, 30.0]));
}

#[test]
fn deinterleave_of_one_channel_is_the_identity() {
    let samples = vec![5u32, 6, 7];
    assert_eq!(deinterleave(&samples, 1), samples);
}

#[test]
fn deinterleave_three_channels() {
    let samples = vec![1u32, 2, 3, 4, 5, 6];
    assert_eq!(deinterleave(&samples, 3), vec![1, 4, 2, 5, 3, 6]);
}

#[test]
fn asset_from_samples_empty_is_error() {
    assert!(matches!(check_interleaved(0, 1, 44100, 44100), Err(AssetError::Empty)));
}

#[test]
fn asset_samples_without_channels_or_ragged_are_empty() {
    assert!(matches!(check_interleaved(4, 0, 44100, 44100), Err(AssetError::Empty)));
    assert!(matches!(check_interleaved(3, 2, 44100, 44100), Err(AssetError::Empty)));
}

#[test]
fn asset_samples_zero_rate_is_error() {
    assert!(matches!(check_interleaved(2, 1, 0, 44100), Err(AssetError::ZeroSampleRate)));
    // The emptiness check comes first.
    assert!(matches!(check_interleaved(0, 1, 0, 0), Err(AssetError::Empty)));
}

#[test]
fn asset_samples_unconfigured_graph_rate_is_error() {
    let r = check_interleaved(2, 1, 48000, 0);
    assert!(matches!(r, Err(AssetError::GraphRateUnset { asset: 48000 })));
    // A zero asset rate is reported before an unset graph rate.
    assert!(matches!(check_interleaved(2, 1, 0, 0), Err(AssetError::ZeroSampleRate)));
}

#[test]
fn asset_samples_at_another_rate_are_accepted() {
    assert_eq!(check_interleaved(1000, 1, 48000, 24000).unwrap(), 1000);
    assert_eq!(check_interleaved(1200, 2, 48000, 44100).unwrap(), 600);
}

#[test]
fn publish_is_refused_only_at_a_configured_other_rate() {
    assert!(check_publish(44100, 0).is_ok());
    assert!(check_publish(44100, 44100).is_ok());
    assert!(matches!(
        check_publish(48000, 44100),
        Err(AssetError::SampleRateMismatch { asset: 48000, graph: 44100 })
    ));
}
