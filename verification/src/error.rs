//! The failures that loading and querying a puppet can report.

use vstd::prelude::*;

verus! {

/// Every way in which decoding a container, building a scene graph or
/// ordering its nodes can fail.
#[derive(Clone, Copy, Debug, PartialEq, Eq, Structural)]
pub enum PuppetError {
    /// A section marker does not hold the expected eight bytes.
    MalformedMagic,
    /// The input ends before a field that the framing announces.
    TruncatedInput,
    /// The scene payload is not valid UTF-8.
    InvalidPayloadEncoding,
    /// The scene payload is not a well-formed description of a node tree.
    InvalidSceneStructure,
    /// A node names a type that this library does not know.
    UnknownNodeType,
    /// Two nodes of one tree carry the same identifier.
    DuplicateExternalId,
    /// A texture entry carries a format tag other than 0, 1 or 2.
    UnsupportedTextureFormat,
    /// The draw order had to compare a weight that is not a number.
    IncomparableZOrder,
}

} // verus!
