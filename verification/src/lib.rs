//! A verified core of the Inverse Modified Discrete Cosine Transform (IMDCT).
//!
//! The IMDCT maps `N` frequency-domain coefficients to `2N` time-domain
//! samples. The fast reduction implemented here expresses the IMDCT as a
//! DCT-IV built from a DCT-II: a pre-rotation of the input, an in-place
//! DCT-II (supplied by the caller, out of scope here), a pair of in-place
//! recurrences turning DCT-II output into DCT-IV coefficients, and a
//! symmetry expansion that fills the whole output buffer. The recurrences
//! and the expansion overwrite quarters of a single buffer in a strict
//! order; this crate proves that the in-place schedule computes exactly
//! the region-by-region values stated in [`model`].
//!
//! Samples are exact 64-bit integers, the natural carrier for a verified
//! fixed-point pipeline; a caller that works in floating point quantizes
//! its samples and twiddle table on the way in and out.

pub mod model;
pub mod transform;

pub use transform::Imdct;
pub use transform::ImdctError;
