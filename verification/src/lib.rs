//! Building blocks of a portable prover over 31-bit prime fields.
//!
//! - [`field`]: Montgomery arithmetic in BabyBear and KoalaBear and in their
//!   binomial extensions of degree 4 and 5.
//! - [`ntt`]: batched forward and inverse number-theoretic transforms, the
//!   kernels they are made of, and the planning of their passes.
//! - [`cube`]: what executors know of a device, and recipe-driven parallel
//!   prefix scans over any monoid.
//! - [`polynomial`]: division by `x - z` as such a scan.
//! - [`web`]: what the browser benchmark demo computes.
//! - [`zmod`], [`poly`], [`po2`]: the mathematics that the contracts speak
//!   of: residues, polynomials, powers of two and bit reversal.
//!
//! A kernel is a function that computes what all workgroups of a launch
//! compute, on slices in place of device buffers. What it leaves in the
//! buffers is stated exactly, over the field elements that the words stand
//! for.

pub mod cube;
pub mod field;
pub mod ntt;
pub mod po2;
pub mod poly;
pub mod polynomial;
pub mod web;
pub mod zmod;
