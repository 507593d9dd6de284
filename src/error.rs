use vstd::prelude::*;

verus! {

/// Every failure the library reports; each kind is distinct.
#[derive(Debug, Clone, PartialEq, Eq)]
pub enum AnvilError {
    /// A tag type byte outside 0..=12, or a structurally impossible tag.
    MalformedTag,
    /// Fewer bytes remain than a declared length or count requires.
    TruncatedInput,
    /// A string tag's bytes are not valid UTF-8.
    InvalidUtf8,
    /// The region buffer is not a region file, or a block name is malformed.
    InvalidFormat,
    /// The region buffer is empty.
    EmptyRegionFile,
    /// A chunk payload is present but cannot be decoded.
    CorruptedData,
    /// The chunk is stored in a companion file, which this library does not read.
    ExternalChunkUnsupported,
    /// No chunk is stored at the given chunk coordinates.
    ChunkNotFound { x: i32, z: i32 },
    /// Block or section coordinates outside the chunk.
    OutOfBoundsCoordinates { x: i32, y: i32, z: i32 },
    /// The legacy table has no entry for this numeric id and data value.
    UnknownLegacyId { id: u32, data: u32 },
    /// The chunk document lacks the structure its format version requires.
    InvalidChunkData,
}

} // verus!
