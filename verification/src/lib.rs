//! A snapshot viewer for the host's process hierarchy.
//!
//! The crate builds an index of process records — each with an identifier,
//! a display name, an optional working directory and an optional parent —
//! and renders the parent/child hierarchy as an indented tree of text,
//! rooted at a designated root identifier.

use vstd::prelude::*;

pub mod decimal;
pub mod index;
pub mod record;
pub mod render;

verus! {

} // verus!
