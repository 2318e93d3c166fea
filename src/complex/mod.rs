//! The textual notation of complex numbers.

pub mod notation;
