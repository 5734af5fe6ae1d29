//! A verified core for a multi-tool configuration synchronizer.
//!
//! The crate models the synchronizer's state in memory: documents, directory
//! snapshots, the content-addressed blob store, the append-only history event
//! log, and the category synchronizers that propagate a last-write-wins
//! winner across tool directories.  All filesystem traffic stays outside the
//! library; callers hand it listings and apply the write actions it returns.

pub mod codec;
pub mod config;
pub mod daemon;
pub mod doc;
pub mod errors;
pub mod fs;
pub mod hash;
pub mod sync;
pub mod tools;
pub mod versions;
pub mod watch;
pub mod history;
pub mod text;

use vstd::prelude::*;

verus! {

} // verus!
