//! What the browser benchmark demo computes: its input, the description of
//! a plan, and its reports.

pub mod input;
pub mod report;
pub mod text;
