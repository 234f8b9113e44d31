//! Shared input plumbing for the solvers: which part of a puzzle is asked,
//! and the raw input text that goes with it.

use vstd::prelude::*;

verus! {

/// The three parts a puzzle can be asked in.
pub enum Part {
    Part1,
    Part2,
    Part3,
}

/// A parsed invocation: the raw input text and the selected part.
pub struct Args {
    pub input: String,
    pub part: Part,
}

} // verus!
