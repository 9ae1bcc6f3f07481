//! Text navigation primitives for a terminal file viewer: a query prompt,
//! smartcase literal search, match highlighting over styled lines, and the
//! selection rules of a gitignore-aware file index.
use vstd::prelude::*;

pub mod highlight;
pub mod index;
pub mod prompt;
pub mod search;

verus! {

} // verus!
