//! A scanner for a small parenthesised notation (atoms, quoted strings,
//! `;` line comments and nested groups) and a lazy cursor that walks the
//! groups as a tree over one shared scan position.
//!
//! `parse` gives the flat token stream. `parse2` gives a `Groups`, which owns
//! the scan position of a walk; its cursors (`GroupsIter`) are small handles
//! that read through it. A cursor is live while it is the open cursor at its
//! depth. Reading a cursor whose nested cursors are still open first drains
//! them, so abandoning a nested group at any point is the same as reading it
//! out. A lexical error is recorded in the position itself as a mark that no
//! input position can take: every cursor then reads nothing, and
//! `Groups::into_error` decodes it at the end. An input that ends inside open
//! groups is not an error: the open cursors simply read nothing more.
use vstd::prelude::*;

pub mod error;
pub mod scan;
pub mod groups;
pub mod walk;

pub use error::Error;
pub use groups::{Groups, GroupsIter, Item, parse2, parse2_strict};
pub use scan::{Iter, Token, parse, parse_strict};

verus! {

} // verus!
