//! A content-addressable object store in the style of a version-control
//! system's storage layer: payloads are framed with a `"<type> <length>\0"`
//! header, fingerprinted by their SHA-1 digest, compressed with zlib, and
//! filed under a path derived from the fingerprint's hex text. A tree codec
//! serializes ordered directory listings into binary tree payloads and
//! parses them back; a commit builder composes textual commit payloads.
//! Contracts on the codecs state exactly which inputs succeed and what comes
//! back, and round-trip laws are proved for framing, hex text and the tree
//! codec.

use vstd::prelude::*;

pub mod git_objects;

verus! {

/// Failure taxonomy of the object store and its codecs: a malformed header,
/// tree body or fingerprint text is `Format`; a missing object is `NotFound`;
/// a decompression failure is `Corruption`; an underlying storage failure is
/// `Io`.
#[derive(Clone, Copy, Debug, PartialEq, Eq, Structural)]
pub enum GitError {
    Format,
    NotFound,
    Corruption,
    Io,
}

} // verus!
