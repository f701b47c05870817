//! The arithmetic engine of a polynomial commitment pipeline: the
//! in-place radix-2 Fourier transform, the bucketed multi-scalar
//! multiplication, the balanced work partitioning they share, and the
//! polynomial utilities built on top - evaluation, inner products,
//! synthetic division, Lagrange interpolation and vanishing-polynomial
//! evaluation.
//!
//! The field and group the kernels act on are modelled concretely:
//! the scalar field is the integers modulo the NTT-friendly prime
//! `257`, and the group is its additive group under the field's
//! multiplicative scalar action, carried in an affine and a projective
//! representation. Every contract is stated over those residues, and
//! everything in this crate is verified; timing, logging and the
//! machine's thread count live with the embedding application.

pub mod distributor;
pub mod fft;
pub mod field;
pub mod group;
pub mod msm;
pub mod poly;

pub use field::Fp;
