//! Text layout and pagination for generated business documents: word wrapping under a
//! character-count width estimate, page flow over a fixed page geometry, and the two
//! document builders; with the CSV record lookup and the parsing of generated questions
//! that feed them.
use vstd::prelude::*;

pub mod document;
pub mod layout;
pub mod questions;
pub mod record;
pub mod wrap;

verus! {

} // verus!
