//! jaw: a code generator for binary message layouts described in a small DSL.
use vstd::prelude::*;

pub mod text;
pub mod strings;
pub mod tokens;
pub mod tokenreader;
pub mod module;
pub mod intermediate;
pub mod compile;
pub mod codegen;

verus! {

} // verus!
