//! An embedded key-value store kept as an append-only log of immutable
//! segments, in the Bitcask fashion: every write goes to the single
//! active segment, sealed segments stay read-only, an in-memory index
//! maps each live key to its latest record on disk, and compaction folds
//! the whole history into one segment of live records. The engine in
//! [`log_file`] is a verified model of that state; a thin shell around
//! the crate moves its bytes to and from the file system.
//!
//! Beside the engine stand the record and hint-file codecs and a set of
//! self-contained containers and algorithm helpers: linked lists, a
//! queue, a stack, search and sort routines, and a binary search tree.

pub mod binary_tree;
pub mod byte_search;
pub mod forward_list;
pub mod hint;
pub mod linked_list;
pub mod log_file;
pub mod memtable;
pub mod queue;
pub mod record;
pub mod recovery;
pub mod searcher;
pub mod sorter;
pub mod stack;

use vstd::prelude::*;

verus! {

} // verus!
