//! Support for the `#[rapx::verify]` scan: attribute matching, standard-crate detection
//! and normalization of the bundled standard-library contract table.

pub mod scan;
