//! A formatter for view templates that hold markup and embedded script.

use vstd::prelude::*;

pub mod formatter;
pub mod parser;
pub mod text;

verus! {

} // verus!
