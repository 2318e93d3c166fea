//! Matrices and their operations.

pub mod matrix;

pub use matrix::Matrix;
