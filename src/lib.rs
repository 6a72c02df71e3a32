//! A single-file, append-only vector store: the segment format, the
//! copy-on-write engine, compaction, query admission control and the
//! store runtime that ties them together.
use vstd::prelude::*;

pub mod adversarial;
pub mod agi_container;
pub mod circadian;
pub mod codec;
pub mod compaction;
pub mod dos;
pub mod error;
pub mod manifest;
pub mod options;
pub mod recovery;
pub mod safety_net;
pub mod segment;
pub mod store;
pub mod vectors;

verus! {

/// Version of the library.
pub const VERSION: &'static str = "0.1.0";

} // verus!
