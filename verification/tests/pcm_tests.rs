use audio_transcription::pcm::{
    average_amplitude, max_amplitude, resample_linear, samples_from_u16, stereo_to_mono,
};

#[test]
fn test_stereo_to_mono() {
    let samples = vec![1000, 3000, 2000, 4000, 3000, 5000];

    let mono = stereo_to_mono(&samples, 2);

    assert_eq!(mono, vec![2000, 3000, 4000]);
}

#[test]
fn test_stereo_to_mono_single_channel() {
    let samples = vec![1000, 2000, 3000];

    let mono = stereo_to_mono(&samples, 1);

    assert_eq!(mono, samples);
}

#[test]
fn test_resample_linear() {
    let samples = vec![0, 1000, 2000, 3000];

    let output = resample_linear(&samples, 8000, 16000);

    assert!(!output.is_empty());
    assert!(output.len() > samples.len());
}

#[test]
fn stereo_to_mono_rounds_toward_zero() {
    assert_eq!(stereo_to_mono(&[-3, -2, 3, 2], 2), vec![-2, 2]);
}

#[test]
fn stereo_to_mono_drops_incomplete_frame() {
    assert_eq!(stereo_to_mono(&[10, 20, 30], 2), vec![15]);
    assert_eq!(stereo_to_mono(&[10, 20, 30, 40, 50], 3), vec![20]);
}

#[test]
fn stereo_to_mono_zero_channels_keeps_samples() {
    assert_eq!(stereo_to_mono(&[7, -7], 0), vec![7, -7]);
}

#[test]
fn stereo_to_mono_extremes_stay_in_range() {
    assert_eq!(
        stereo_to_mono(&[i16::MAX, i16::MAX, i16::MIN, i16::MIN, i16::MIN, i16::MAX], 2),
        vec![i16::MAX, i16::MIN, 0]
    );
}

#[test]
fn resample_upsampling_interpolates_exactly() {
    let output = resample_linear(&[0, 1000, 2000, 3000], 8000, 16000);
    assert_eq!(output, vec![0, 500, 1000, 1500, 2000, 2500, 3000, 3000]);
}

#[test]
fn resample_downsampling_picks_grid_samples() {
    let output = resample_linear(&[1, 2, 3, 4, 5, 6], 48000, 16000);
    assert_eq!(output, vec![1, 4]);
}

#[test]
fn resample_length_rounds_up() {
    let output = resample_linear(&[5; 10], 44100, 16000);
    assert_eq!(output.len(), 4);
    assert_eq!(output, vec![5, 5, 5, 5]);
}

#[test]
fn resample_negative_interpolation_rounds_toward_zero() {
    assert_eq!(resample_linear(&[-1, -2], 1, 2), vec![-1, -1, -2, -2]);
}

#[test]
fn resample_same_rate_and_empty_input() {
    assert_eq!(resample_linear(&[3, 1, 4], 16000, 16000), vec![3, 1, 4]);
    assert!(resample_linear(&[], 8000, 16000).is_empty());
    assert!(resample_linear(&[], 0, 16000).is_empty());
}

#[test]
fn resample_to_zero_rate_is_empty() {
    assert!(resample_linear(&[1, 2, 3], 8000, 0).is_empty());
}

#[test]
fn resampled_samples_stay_between_neighbours() {
    let input = [-30000, 30000, -30000, 30000];
    let output = resample_linear(&input, 7, 23);
    for (i, v) in output.iter().enumerate() {
        let idx = i * 7 / 23;
        if idx + 1 < input.len() {
            let lo = input[idx].min(input[idx + 1]);
            let hi = input[idx].max(input[idx + 1]);
            assert!(lo <= *v && *v <= hi);
        } else {
            assert_eq!(*v, input[input.len() - 1]);
        }
    }
}

#[test]
fn samples_from_u16_recentres() {
    assert_eq!(samples_from_u16(&[0, 32768, 65535, 32769]), vec![-32768, 0, 32767, 1]);
    assert!(samples_from_u16(&[]).is_empty());
}

#[test]
fn amplitude_summary() {
    assert_eq!(max_amplitude(&[3, -7, 5]), 7);
    assert_eq!(max_amplitude(&[]), 0);
    assert_eq!(max_amplitude(&[i16::MAX, -i16::MAX]), 32767);
    assert_eq!(max_amplitude(&[5, i16::MIN, 7]), 32768);
    assert_eq!(average_amplitude(&[3, -7, 5]), 5);
    assert_eq!(average_amplitude(&[1, 2]), 1);
    assert_eq!(average_amplitude(&[]), 0);
    assert_eq!(average_amplitude(&[i16::MIN, i16::MIN]), 32768);
}
