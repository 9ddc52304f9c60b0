//! Content-addressed blob store with a trigram-based full-text index.
//!
//! Blobs are framed into append-only pack files, routed into one of sixteen
//! shard families by size and text-ness.  An offline builder turns a pack
//! file into a blocked on-disk inverted index over trigram codes; the reader
//! intersects posting lists and re-checks every candidate against the stored
//! bytes before reporting a match.

use vstd::prelude::*;

pub mod builder;
pub mod compress;
pub mod find;
pub mod grep;
pub mod names;
pub mod pack;
pub mod search;
pub mod segments;
pub mod shards;
pub mod simplify;
pub mod text;
pub mod tri;

verus! {

/// The failure kinds that the store and the index surface.
///
/// Filesystem trouble is reported as `Io`; a framing or format invariant
/// that does not hold is `InvalidState`; a query feature that the trigram
/// alphabet cannot express is `Unsupported`.
#[derive(Clone, Copy, Debug, PartialEq, Eq, Structural)]
pub enum Error {
    Io,
    InvalidState,
    Unsupported,
}

} // verus!
