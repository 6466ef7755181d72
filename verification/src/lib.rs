//! A single-pass compiler from a small language of integer expressions,
//! comparisons, single-letter variables and statement sequences to x86-64
//! assembly text.
//!
//! The scanner ([`tokenize`]) turns source text into a token list, the
//! parser ([`parse`]) turns the token list into syntax trees, and the code
//! generator ([`codegen`]) lowers the trees onto a stack machine; the lines
//! it emits and their text are in [`listing`]. The data model is in [`cc`],
//! the failures in [`error`].
//!
//! What the emitted code does is stated over a model of the machine
//! ([`machine`]) and a meaning of the trees ([`eval`]), and proved in
//! [`correctness`].

use vstd::prelude::*;

pub mod cc;
pub mod error;
pub mod text;
pub mod tokenize;
pub mod parse;
pub mod listing;
pub mod codegen;
pub mod machine;
pub mod eval;
pub mod correctness;
