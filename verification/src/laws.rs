//! What the operations of the language promise, over all inputs.
pub mod analysis;
pub mod dates;
pub mod expressions;
pub mod filtering;
pub mod grouping;
pub mod joins;
pub mod lists;
pub mod mapping;
pub mod names;
pub mod numbers;
pub mod pages;
pub mod reading;
pub mod refusals;
pub mod running;
pub mod shapes;
pub mod sources;
pub mod steps;
pub mod texts;
pub mod values;
