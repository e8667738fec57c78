# lau-harmonic-analysis

Harmonic analysis in Rust: Fourier series, DFT/FFT, convolution and
correlation, windowing, Laplace and Z transforms, Haar wavelets, spectral
estimation and periodicity detection.

## Layout

- `src/` is the library checked by Verus. It holds the exact integer logic
  that the numerical code relies on, each function with a contract:
  - `bits.rs`: powers of two, bits, bit reversal (`reversed_bits`), `log2`,
    the least power of two at or above a length, and the lemmas about them
    (reversal is an involution on its window, the least power of two is
    unique, ...).
  - `dft.rs`: `Dft::is_power_of_2`, `Dft::reverse_bits`, the bit-reversal
    permutation `Dft::bit_reverse_copy` that starts the radix-2 FFT, and
    `Dft::zero_pad_to_power_of_2`.
  - `fourier_transform.rs`: `FourierTransform::next_power_of_2`, the padded
    length of FFT convolution and correlation.
  - `spectral.rs`: `SpectralEstimation::welch_segments`, how Welch's method
    cuts a signal into overlapping segments (every segment lies inside the
    signal, and no further segment would fit).
  - `wavelet.rs`: the dyadic-length test of the Haar transform.
  - the remaining modules hold the toolkit's unit types.
- `app/` is the numerical toolkit on `f64` and `num_complex::Complex64`
  samples (transforms, windows, spectra, wavelets, analysis), with serde
  support. It calls the library for all of the index arithmetic above;
  floating-point computation itself is outside what the library states.
- `tests/` exercises the library on concrete values.
