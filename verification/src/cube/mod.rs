//! Devices, monoids and parallel prefix scans.

pub mod device;
pub mod monoid;
pub mod recipe;
pub mod scan;
pub mod scan_exec;
pub mod spine;
pub mod sum;
