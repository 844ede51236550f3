use vstd::prelude::*;

verus! {

/// A field of a torrent document or of a tracker reply.
#[derive(Clone, Copy, Debug, PartialEq, Eq, Structural)]
pub enum Field {
    Announce,
    Info,
    Length,
    Name,
    PieceLength,
    Pieces,
    Interval,
    Peers,
}

/// Why a byte buffer could not be turned into a value of this library.
#[derive(Clone, Copy, Debug, PartialEq, Eq, Structural)]
pub enum Error {
    /// The bytes break the bencode syntax (or a compact field has a bad length).
    MalformedInput,
    /// Well-formed bencode, but the named field is missing or has the wrong type.
    SchemaError(Field),
    /// A field is present and well-typed but violates a structural invariant.
    IntegrityError,
    /// The tracker address is not a URL.
    InvalidUrl,
}

} // verus!
