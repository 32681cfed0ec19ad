//! Streaming short-time Fourier analysis of 16-bit audio: the integer side.
//!
//! The crate cuts an unbounded sample stream into overlapping frames of fixed
//! size and folds a full spectrum down to its non-redundant half. The
//! arithmetic on real numbers (window weights, the transform itself, the power
//! of a bin) is supplied by the caller.

pub mod framer;
pub mod fft;
