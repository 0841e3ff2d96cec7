//! Bidirectional binary codec for the level (`.lev`) and replay (`.rec`)
//! files of the Elasto Mania family of motorcycle games.
//!
//! Every field of both formats sits at a fixed byte offset, all multi-byte
//! values are little-endian, and several fields are intentionally obfuscated
//! (magic float biases on the section counts, a stream cipher over the
//! embedded leaderboard block).  The whole value of the codec is getting the
//! layout and the transform constants bit-exact, so both directions are
//! specified down to the byte and proved against those specifications.
//!
//! Floating-point fields (positions, integrity checksums, event times) are
//! carried as their IEEE 754 bit patterns (`u64` for doubles, `u32` for
//! singles): the codec only moves their bytes, and keeping the bits avoids
//! any rounding on the way through.  The one place the format genuinely
//! depends on floating-point semantics — the biased section counts — is
//! computed exactly over bit patterns in [`count`].
//!
//! The codec owns no I/O: it maps byte buffers to records and back.

use vstd::prelude::*;

pub mod bytes;
pub mod count;
pub mod crypt;
pub mod fixed;
pub mod lev;
pub mod rec;

verus! {

/// A numeric pair; the element type varies by context (`u64` bit patterns of
/// doubles for level geometry, `u32` bit patterns of singles or `i16` for
/// replay samples).
#[derive(Debug, Clone, Copy, PartialEq, Eq)]
pub struct Position<T> {
    /// X-position.
    pub x: T,
    /// Y-position.
    pub y: T,
}

/// Which fixed-width string field overflowed its slot.
#[derive(Debug, Clone, Copy, PartialEq, Eq)]
pub enum FieldId {
    /// Level name (51 bytes).
    Name,
    /// LGR file name (16 bytes).
    Lgr,
    /// Ground texture name (10 bytes).
    Ground,
    /// Sky texture name (10 bytes).
    Sky,
    /// Picture name (10 bytes).
    PictureName,
    /// Picture texture name (10 bytes).
    PictureTexture,
    /// Picture mask name (10 bytes).
    PictureMask,
    /// First player name of a leaderboard entry (15 bytes).
    EntryName1,
    /// Second player name of a leaderboard entry (15 bytes).
    EntryName2,
    /// Level filename in a replay header (12 bytes).
    LevelFilename,
}

/// Which capacity-bounded section overflowed its count field.
#[derive(Debug, Clone, Copy, PartialEq, Eq)]
pub enum SectionId {
    /// Polygon count field.
    Polygons,
    /// Object count field.
    Objects,
    /// Picture count field.
    Pictures,
    /// Vertex count field of one polygon.
    Vertices,
    /// Single-player leaderboard.
    SingleList,
    /// Multi-player leaderboard.
    MultiList,
    /// Replay frame count field.
    Frames,
    /// Replay event count field.
    Events,
}

/// A structural violation found while decoding; the whole decode aborts and
/// no partial record is returned.
#[derive(Debug, Clone, Copy, PartialEq, Eq)]
pub enum FormatError {
    /// The first 5 bytes match neither version tag.
    UnknownSignature,
    /// A magic boundary marker was not found where the layout demands it.
    SentinelMismatch { expected: u32, found: u32, offset: usize },
    /// An object kind tag outside {1, 2, 3, 4}.
    InvalidObjectType(i32),
    /// A picture clipping tag outside {0, 1, 2}.
    InvalidClipMode(i32),
    /// A count field is negative or implausibly large after bias removal.
    CountOutOfRange { offset: usize },
    /// The buffer ended before the field starting at `offset` was complete.
    UnexpectedEnd { offset: usize },
}

/// A record field that cannot be represented in the fixed wire layout.
#[derive(Debug, Clone, Copy, PartialEq, Eq)]
pub enum EncodeError {
    /// A string's byte length leaves no room for its mandatory trailing zero.
    FieldTooLong { field: FieldId, max: usize },
    /// A section holds more items than its count field's domain.
    CapacityExceeded { section: SectionId, max: usize },
}

/// Copy `n` bytes starting at `pos` out of a buffer.
pub fn read_n(buffer: &Vec<u8>, pos: usize, n: usize) -> (r: Vec<u8>)
    requires
        pos + n <= buffer.len(),
    ensures
        r@ == buffer@.subrange(pos as int, pos + n),
{
    let mut r: Vec<u8> = Vec::new();
    let mut i: usize = 0;
    while i < n
        invariant
            pos + n <= buffer.len(),
            i <= n,
            r@ == buffer@.subrange(pos as int, pos + i),
        decreases n - i,
    {
        r.push(buffer[pos + i]);
        i = i + 1;
        assert(r@ =~= buffer@.subrange(pos as int, pos + i));
    }
    r
}

} // verus!
