//! A text-editing engine: a rope-backed buffer, word-wrapping layout,
//! time-coalesced undo history, and literal find/replace.
use vstd::prelude::*;

pub mod text;
pub mod buffer;
pub mod history;
pub mod layout;
pub mod find;
pub mod editor;
pub mod line_input;

verus! {

} // verus!
