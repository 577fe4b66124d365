//! Incremental indexing of file content fingerprints under named root directories
//! ("tags"), and detection of redundant copies among the indexed files.
//!
//! The library holds the logic: the records, the reconciliation of a tag against a walk
//! of its directory, the lazy hashing policy and the grouping of duplicates. Walking
//! directories and reading files is left to the caller, who hands in what it saw.
use vstd::prelude::*;

pub mod fingerprint;
pub mod record;
pub mod scan;
pub mod groups;
pub mod tag;
pub mod local_index;
pub mod laws;

pub use fingerprint::{Fingerprinter, fingerprint};
pub use local_index::{IndexError, LocalIndex};
pub use record::{FileChangeEvent, FileObservation, IndexItem};
pub use tag::Tag;

verus! {

} // verus!
