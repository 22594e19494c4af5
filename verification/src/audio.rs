//! Audio analysis.
//!
//! Analysis happens at the source, once, and only the result is broadcast —
//! never raw audio. The shell captures samples and hands them in.

pub mod analyzer;
pub mod fft;
