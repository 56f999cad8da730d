//! Batched number-theoretic transforms.
//!
//! The forward NTT takes bit-reversed coefficients and produces
//! natural-order evaluations; the inverse is the dual. Use
//! [`twiddles::bit_reverse_in_place`] to prepare bit-reversed input or to
//! interpret such output. Polynomials are sized `2^log_n`, up to `log_n =
//! 24`.
//!
//! - [`executor`]: runs a transform according to a plan.
//! - [`planner`]: the same with fixed pass sizes.
//! - [`plan`], [`enumerate`]: plans, their validity, the heuristic choice
//!   and the enumeration of all valid ones; [`score`]: how plans are rated.
//! - [`fwd_pass`], [`inv_pass`], [`monolithic`], [`two_pass`]: the kernels;
//!   [`pass_common`] and [`tile`] hold what they share.
//! - [`twiddles`]: the tables of powers of roots of unity.
//! - [`transform`], [`layout`]: what the transforms are, and why passes over
//!   a reordered buffer add up to them.

pub mod enumerate;
pub mod executor;
pub mod fwd_pass;
pub mod inv_pass;
pub mod layout;
pub mod monolithic;
pub mod pass_common;
pub mod plan;
pub mod planner;
pub mod score;
pub mod tile;
pub mod transform;
pub mod twiddles;
pub mod two_pass;
