//! A personal task list: tasks with tags, kept as two JSON documents.
//!
//! `task` holds the record type, `tasklist` the operations on the lists,
//! `json` the pieces of JSON text the documents are made of, and `store`
//! the two document formats with their round-trip proofs.

use vstd::prelude::*;

pub mod task;
pub mod tasklist;
pub mod json;
pub mod store;

verus! {

} // verus!
