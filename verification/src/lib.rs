//! The first steps of reading a description language: splitting text into
//! tokens, and the rules for names and literal values.
//!
//! Text is split into tokens by [`tokenize::tokenize`]. The tokens are then
//! reversed into a stack, from whose end the grammar rules in [`parse`] take
//! what belongs to them.

pub mod number;
pub mod parse;
pub mod text;
pub mod tokenize;
