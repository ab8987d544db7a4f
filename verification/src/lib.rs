//! Quench: where things are in a source file, what a project decided, and the types a
//! program means.

pub mod text;
pub mod chars;
pub mod grapheme;
pub mod source;
pub mod diag;
pub mod conf;
pub mod render;
pub mod ty;
pub mod holes;
pub mod checked;
pub mod checker;
pub mod chains;
pub mod calls;
pub mod imports;
pub mod names;
pub mod gen;
pub mod oracle;
pub mod heap;
pub mod program;
pub mod values;
pub mod arguments;

use vstd::prelude::*;

verus! {

} // verus!
