//! Polynomial-level operations over base and extension fields.
//!
//! Division by `(x - z)` is synthetic division reframed as a parallel
//! prefix scan.

pub mod div_by_x_minus_z;
pub mod horner;
pub mod host_ref;
pub mod pair_scan;
pub mod poly_div;
