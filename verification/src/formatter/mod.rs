//! The formatting engine and its parts.

use vstd::prelude::*;

pub mod budget;
pub mod docblock;
pub mod echo;
pub mod engine;
pub mod flow;
pub mod indent;
pub mod php;
pub mod scan;
pub mod split;
pub mod stable;

verus! {

} // verus!
