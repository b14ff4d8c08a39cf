//! The failures of decoding and of texture reconstruction.

use vstd::prelude::*;

verus! {

/// Why a stream could not be decoded or a texture could not be rebuilt.
///
/// Every failure is final: no partial model and no partial texture is ever
/// handed out together with an error.
#[derive(Clone, Copy, Debug, PartialEq, Eq, Structural)]
pub enum FormatError {
    /// The stream does not start with the sixteen signature bytes.
    BadMagic,
    /// The stream ends before a declared or computed length is reached.
    Truncated,
    /// A section offset of the header points past the end of the stream.
    SeekOutOfRange,
    /// The tile index table names a tile that the archive does not hold.
    TileIndexOutOfBounds,
    /// The tile archive is not compressed with BC1.
    UnsupportedCompression,
    /// A count or a size that no model can have: a negative feature count,
    /// a grid dimension that is no multiple of four, an index table or a
    /// tile buffer whose length contradicts the format, a texture too large
    /// to be addressed.
    InvalidDimensions,
}

} // verus!
