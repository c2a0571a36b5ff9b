//! A range verifier for the Collatz "goes below itself" property, built on a
//! 128-bit fixed-width integer, a table of fused multi-step constants and a
//! table of candidate skips.

pub mod bigint;
pub mod collatz;
