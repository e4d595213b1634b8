//! An infix arithmetic expression engine: a scanner that turns text into
//! tokens, and a precedence-driven, two-stack evaluator that turns tokens into
//! a reduction, the exact order in which literals are pushed and operators
//! are applied, and from there into a value under whatever arithmetic the
//! caller supplies.
//! Beside it stand a small book catalog and a helper for terminal text.

pub mod token;
pub mod scanner;
pub mod reduction;
pub mod evaluator;
pub mod grammar;
pub mod chain;
pub mod catalog;
pub mod text;
