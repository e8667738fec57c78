use lau_harmonic_analysis::{Dft, Wavelet};

#[test]
fn wavelet_dyadic_lengths() {
    assert!(Wavelet::is_power_of_2(8));
    assert!(Wavelet::is_power_of_2(1));
    assert!(!Wavelet::is_power_of_2(0));
    assert!(!Wavelet::is_power_of_2(12));
    for n in 0..1100usize {
        assert_eq!(Wavelet::is_power_of_2(n), Dft::is_power_of_2(n));
    }
}
