//! Value types for numerical work: the textual form of complex numbers and
//! row-major matrices over an arbitrary element type.

pub mod complex;
pub mod linalg;
