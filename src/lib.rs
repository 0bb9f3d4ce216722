//! Array values of a query language: their model, set algebra, evaluation,
//! canonical text and literal grammar.

pub mod value;
pub mod array;
pub mod abolish;
pub mod algebra;
pub mod laws;
pub mod compute;
pub mod display;
pub mod parser;
pub mod roundtrip;
pub mod order;
mod text;
