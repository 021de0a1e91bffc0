// Assertions whose expected values are literals in their own source file,
// and the machinery that rewrites those literals in place: locating them,
// rendering new ones, and patching a file with edits in original coordinates.
use vstd::prelude::*;

pub mod diff;
pub mod expect;
pub mod patchwork;
pub mod round_trip;
pub mod runtime;
pub mod str_lit_kind;
pub mod text;

verus! {

} // verus!
