//! The built-in functions.
pub mod array;
pub mod boolean;
pub mod common;
pub mod date;
pub mod ml;
pub mod numbers;
pub mod optics;
pub mod settings;
pub mod strings;
