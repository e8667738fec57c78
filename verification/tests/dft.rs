use lau_harmonic_analysis::{Dft, FourierTransform};
use num_complex::Complex64;

#[test]
fn test_bit_reverse() {
    assert_eq!(Dft::reverse_bits(0, 3), 0);
    assert_eq!(Dft::reverse_bits(1, 3), 4);
    assert_eq!(Dft::reverse_bits(3, 3), 6);
    assert_eq!(Dft::reverse_bits(6, 3), 3);
}

#[test]
fn test_is_power_of_2() {
    assert!(Dft::is_power_of_2(1));
    assert!(Dft::is_power_of_2(256));
    assert!(!Dft::is_power_of_2(3));
    assert!(!Dft::is_power_of_2(0));
}

#[test]
fn test_zero_pad() {
    let signal = vec![Complex64::new(1.0, 0.0); 5];
    let padded = Dft::zero_pad_to_power_of_2(&signal, Complex64::new(0.0, 0.0));
    assert_eq!(padded.len(), 8);
    assert!(Dft::is_power_of_2(padded.len()));
}

#[test]
fn reverse_bits_reads_only_the_lowest_bits() {
    // bits above the reversed window are dropped
    assert_eq!(Dft::reverse_bits(0b1011_0110, 4), 0b0110);
    assert_eq!(Dft::reverse_bits(5, 0), 0);
    assert_eq!(Dft::reverse_bits(1, 1), 1);
    assert_eq!(Dft::reverse_bits(1, 8), 128);
    assert_eq!(Dft::reverse_bits(0b1101, 6), 0b101100);
}

#[test]
fn reverse_bits_past_the_word_size_drops_shifted_out_bits() {
    let w = usize::BITS as usize;
    // bit 0 of 1 would land at position w, outside the word
    assert_eq!(Dft::reverse_bits(1, w + 1), 0);
    // bit 1 lands at position w - 1
    assert_eq!(Dft::reverse_bits(2, w + 1), 1usize << (w - 1));
    assert_eq!(Dft::reverse_bits(1, w), 1usize << (w - 1));
}

#[test]
fn reverse_bits_twice_keeps_the_window() {
    for bits in 0..10usize {
        for n in 0..300usize {
            let twice = Dft::reverse_bits(Dft::reverse_bits(n, bits), bits);
            assert_eq!(twice, n % (1usize << bits));
        }
    }
}

#[test]
fn is_power_of_2_matches_shifts() {
    for k in 0..usize::BITS {
        let p = 1usize << k;
        assert!(Dft::is_power_of_2(p));
        if p > 2 {
            assert!(!Dft::is_power_of_2(p - 1));
            assert!(!Dft::is_power_of_2(p + 1));
        }
    }
    assert!(!Dft::is_power_of_2(6));
    assert!(!Dft::is_power_of_2(usize::MAX));
}

#[test]
fn bit_reverse_copy_of_eight() {
    let signal: Vec<u32> = (0..8).collect();
    let permuted = Dft::bit_reverse_copy(&signal);
    assert_eq!(permuted, vec![0, 4, 2, 6, 1, 5, 3, 7]);
}

#[test]
fn bit_reverse_copy_twice_is_identity() {
    let signal: Vec<i64> = (0..64).map(|x| x * 3 - 17).collect();
    let once = Dft::bit_reverse_copy(&signal);
    assert_ne!(once, signal);
    let twice = Dft::bit_reverse_copy(&once);
    assert_eq!(twice, signal);
}

#[test]
fn bit_reverse_copy_small_lengths() {
    let empty: Vec<u8> = Vec::new();
    assert!(Dft::bit_reverse_copy(&empty).is_empty());
    assert_eq!(Dft::bit_reverse_copy(&[9u8]), vec![9u8]);
    assert_eq!(Dft::bit_reverse_copy(&[1u8, 2u8]), vec![1u8, 2u8]);
    assert_eq!(Dft::bit_reverse_copy(&[1u8, 2, 3, 4]), vec![1u8, 3, 2, 4]);
}

#[test]
fn bit_reverse_copy_carries_complex_samples() {
    let signal: Vec<Complex64> = (0..4).map(|j| Complex64::new(j as f64, -(j as f64))).collect();
    let permuted = Dft::bit_reverse_copy(&signal);
    assert_eq!(permuted[1], Complex64::new(2.0, -2.0));
    assert_eq!(permuted[2], Complex64::new(1.0, -1.0));
}

#[test]
fn zero_pad_keeps_prefix_and_fills_tail() {
    let signal = vec![7i32, 8, 9];
    let padded = Dft::zero_pad_to_power_of_2(&signal, 0);
    assert_eq!(padded, vec![7, 8, 9, 0]);
    let padded = Dft::zero_pad_to_power_of_2(&[1i32; 9], -1);
    assert_eq!(padded.len(), 16);
    assert_eq!(&padded[..9], &[1i32; 9]);
    assert!(padded[9..].iter().all(|&x| x == -1));
}

#[test]
fn zero_pad_of_dyadic_length_is_unchanged() {
    let signal: Vec<u16> = (0..16).collect();
    assert_eq!(Dft::zero_pad_to_power_of_2(&signal, 99), signal);
    let once = Dft::zero_pad_to_power_of_2(&[3u16; 5], 0);
    let twice = Dft::zero_pad_to_power_of_2(&once, 5);
    assert_eq!(once, twice);
}

#[test]
fn zero_pad_of_empty_signal_has_one_sample() {
    let empty: Vec<i8> = Vec::new();
    assert_eq!(Dft::zero_pad_to_power_of_2(&empty, 4), vec![4i8]);
}

#[test]
fn zero_pad_length_is_next_power_of_2() {
    for n in 0..70usize {
        let signal = vec![1u8; n];
        let padded = Dft::zero_pad_to_power_of_2(&signal, 0);
        assert_eq!(padded.len(), FourierTransform::next_power_of_2(n));
    }
}
