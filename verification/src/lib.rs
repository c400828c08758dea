use vstd::prelude::*;

pub mod arena;
pub mod strings;
pub mod text;
pub mod lexer;
pub mod ast;
pub mod errors;
pub mod parser;
pub mod tir;
pub mod analysis;

verus! {
}
