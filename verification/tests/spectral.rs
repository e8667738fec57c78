use lau_harmonic_analysis::SpectralEstimation;

#[test]
fn welch_segments_half_overlap() {
    let plan = SpectralEstimation::welch_segments(1024, 256, 128);
    assert_eq!(plan.nfft, 256);
    assert_eq!(plan.step, 128);
    assert_eq!(plan.n_segments, 7);
    assert_eq!(plan.starts, vec![0, 128, 256, 384, 512, 640, 768]);
}

#[test]
fn welch_segments_short_signal() {
    // shorter than one segment: counted once, transformed never
    let plan = SpectralEstimation::welch_segments(100, 256, 128);
    assert_eq!(plan.n_segments, 1);
    assert!(plan.starts.is_empty());
}

#[test]
fn welch_segments_pad_fft_length() {
    let plan = SpectralEstimation::welch_segments(1000, 300, 100);
    assert_eq!(plan.nfft, 512);
    assert_eq!(plan.step, 200);
    assert_eq!(plan.n_segments, 4);
    assert_eq!(plan.starts, vec![0, 200, 400, 600]);
    for &s in &plan.starts {
        assert!(s + 300 <= 1000);
    }
    // one more hop would run past the end
    assert!(plan.n_segments * plan.step + 300 > 1000);
}

#[test]
fn welch_segments_no_overlap_exact_fit() {
    let plan = SpectralEstimation::welch_segments(64, 16, 0);
    assert_eq!(plan.n_segments, 4);
    assert_eq!(plan.starts, vec![0, 16, 32, 48]);
    let plan = SpectralEstimation::welch_segments(16, 16, 15);
    assert_eq!(plan.n_segments, 1);
    assert_eq!(plan.starts, vec![0]);
}
