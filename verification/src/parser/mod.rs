//! The reader of templates: tokens, and the tree built from them.

use vstd::prelude::*;

pub mod ast;
pub mod lexer;

verus! {

} // verus!
