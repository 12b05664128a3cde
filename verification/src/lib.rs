//! A compiler for the Stucker toy language: a byte-level tokenizer, a
//! recursive-descent parser and a code generator that emits NASM assembly
//! for a stack whose items carry size tags and can be resized in place.
use vstd::prelude::*;

pub mod ast;
pub mod codegen;
pub mod compile;
pub mod expr;
pub mod laws;
pub mod nasm;
pub mod parse;
pub mod pretty;
pub mod statement;

pub mod text;
pub mod tokenize;

verus! {

} // verus!
