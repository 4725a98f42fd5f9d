//! Discrete Fourier transforms by the recursive radix-2 Cooley-Tukey
//! algorithm, forward and inverse, for any sample type.
//!
//! The transforms in [`dft`] move the samples and decide which operation
//! meets which slot; the arithmetic of the sample type is handed in as
//! function values. What they promise comes in two layers:
//!
//! - [`butterfly`] states the data flow as a relation over whatever those
//!   function values return. It holds for every arithmetic, also one that
//!   rounds, such as complex numbers made of floating-point lanes.
//! - [`spectrum`] states the transforms as the sums that define them, over
//!   an exact number system ([`exact`]). Where the function values compute
//!   exactly, the data flow yields those sums.
//!
//! [`laws`] holds what follows for the two transforms together: the round
//! trip, linearity and conjugate reversal. [`series`] and [`orthogonality`]
//! hold the algebra behind them.

pub mod butterfly;
pub mod dft;
pub mod exact;
pub mod laws;
pub mod orthogonality;
pub mod series;
pub mod spectrum;
