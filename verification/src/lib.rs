//! Go-to-definition over the binding scopes of a Starlark module.
//!
//! `codemap` maps byte positions of a source text to lines and columns,
//! `bind` describes the scope tree that name resolution works on, and
//! `definition` finds, for a cursor position, the span where the name under
//! the cursor is bound.
use vstd::prelude::*;

pub mod codemap;
pub mod bind;
pub mod definition;
pub mod fixture;

verus! {

} // verus!
