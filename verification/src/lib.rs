//! Harmonic analysis: the index arithmetic behind the discrete Fourier
//! transform, bit-reversal permutation, zero padding to dyadic lengths and
//! the types of the analysis toolkit.

pub mod bits;
pub mod dft;
pub mod fourier_transform;
pub mod laplace;
pub mod signal_analysis;
pub mod spectral;
pub mod wavelet;
pub mod windowing;
pub mod ztransform;

pub use dft::Dft;
pub use fourier_transform::FourierTransform;
pub use laplace::LaplaceTransform;
pub use signal_analysis::SignalAnalysis;
pub use spectral::SpectralEstimation;
pub use wavelet::Wavelet;
pub use windowing::Windowing;
pub use ztransform::ZTransform;
