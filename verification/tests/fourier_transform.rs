use lau_harmonic_analysis::FourierTransform;

#[test]
fn next_power_of_2_values() {
    assert_eq!(FourierTransform::next_power_of_2(0), 1);
    assert_eq!(FourierTransform::next_power_of_2(1), 1);
    assert_eq!(FourierTransform::next_power_of_2(2), 2);
    assert_eq!(FourierTransform::next_power_of_2(3), 4);
    assert_eq!(FourierTransform::next_power_of_2(6), 8);
    assert_eq!(FourierTransform::next_power_of_2(8), 8);
    assert_eq!(FourierTransform::next_power_of_2(1025), 2048);
}

#[test]
fn next_power_of_2_at_the_top_of_the_word() {
    let top = 1usize << (usize::BITS - 1);
    assert_eq!(FourierTransform::next_power_of_2(top), top);
    assert_eq!(FourierTransform::next_power_of_2(top / 2 + 1), top);
}

#[test]
fn next_power_of_2_is_least_dyadic_bound() {
    for n in 0..2000usize {
        let p = FourierTransform::next_power_of_2(n);
        assert!(p.is_power_of_two());
        assert!(p >= n);
        assert!(p == 1 || p / 2 < n);
    }
}

#[test]
fn convolution_padding_length() {
    // the FFT convolution of lengths 4 and 3 works on 8 samples
    assert_eq!(FourierTransform::next_power_of_2(4 + 3 - 1), 8);
    // cross-correlating 6 and 3 samples works on 8 samples
    assert_eq!(FourierTransform::next_power_of_2(6 + 3 - 1), 8);
}
