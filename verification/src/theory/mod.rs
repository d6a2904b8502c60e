//! The mathematical model that every contract of the library is stated over.

pub mod bits;
pub mod orbit;
pub mod scan;
pub mod sector;
pub mod completeness;
