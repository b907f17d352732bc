//! A toolchain for a small 16-bit single-accumulator machine.
//!
//! `assembler` turns a stream of classified source items into words in one
//! pass, with `labels` resolving forward references by patching; `machine`
//! runs those words one step at a time; `laws` states and proves what holds
//! of every assembly.
use vstd::prelude::*;

pub mod isa;
pub mod number;
pub mod labels;
pub mod assembler;
pub mod machine;
pub mod laws;

verus! {

} // verus!
