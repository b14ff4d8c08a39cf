//! The tile archive: a signature, a four-field header and the tile records,
//! stored back to back.

use crate::error::FormatError;
use crate::wire::has_prefix;
use crate::wire::in_bounds;
use crate::wire::le_i32;
use crate::wire::le_u32;
use crate::wire::read_i32;
use crate::wire::read_u32;
use crate::wire::read_u8s;
use crate::wire::starts_with;
use crate::wire::views;
use vstd::prelude::*;

verus! {

/// Offset of the first tile record: the signature and the header come first.
pub const SMT_TILES_START: usize = 32;

/// Bytes of one tile record: 512 + 128 + 32 + 8.
pub const TILE_RECORD_LEN: usize = 680;

/// The compression type that stands for BC1.
pub const COMPRESSION_BC1: i32 = 1;

/// The signature of a tile archive: the text `spring tilefile` and a zero
/// byte.
pub open spec fn smt_magic() -> Seq<u8> {
    seq![
        115u8, 112u8, 114u8, 105u8, 110u8, 103u8, 32u8, 116u8,
        105u8, 108u8, 101u8, 102u8, 105u8, 108u8, 101u8, 0u8,
    ]
}

/// The header of a tile archive.
#[derive(Clone, Copy, Debug, PartialEq, Eq, Structural)]
pub struct SMTHeader {
    pub version: i32,
    pub num_tiles: u32,
    pub tile_size: u32,
    pub compression_type: i32,
}

/// One tile: four mip levels of BC1 data, for 32, 16, 8 and 4 pixels a side.
#[derive(Clone, Debug)]
pub struct Tile {
    pub mip_map32: Vec<u8>,
    pub mip_map16: Vec<u8>,
    pub mip_map8: Vec<u8>,
    pub mip_map4: Vec<u8>,
}

/// A decoded tile archive.
#[derive(Clone, Debug)]
pub struct SMT {
    pub header: SMTHeader,
    pub tiles: Vec<Tile>,
}

/// What a `Tile` holds, as sequences.
pub struct TileView {
    pub mip_map32: Seq<u8>,
    pub mip_map16: Seq<u8>,
    pub mip_map8: Seq<u8>,
    pub mip_map4: Seq<u8>,
}

/// What an `SMT` holds, as sequences.
pub struct SMTView {
    pub header: SMTHeader,
    pub tiles: Seq<TileView>,
}

impl TileView {
    /// Each mip level has the length that its side gives it: eight bytes for
    /// each block of four by four pixels.
    pub open spec fn wf(self) -> bool {
        &&& self.mip_map32.len() == 512
        &&& self.mip_map16.len() == 128
        &&& self.mip_map8.len() == 32
        &&& self.mip_map4.len() == 8
    }
}

impl SMTView {
    /// The archive holds as many tiles as its header says, each well formed.
    pub open spec fn wf(self) -> bool {
        &&& self.tiles.len() == self.header.num_tiles
        &&& forall|i: int| 0 <= i < self.tiles.len() ==> (#[trigger] self.tiles[i]).wf()
    }
}

impl View for Tile {
    type V = TileView;

    open spec fn view(&self) -> TileView {
        TileView {
            mip_map32: self.mip_map32@,
            mip_map16: self.mip_map16@,
            mip_map8: self.mip_map8@,
            mip_map4: self.mip_map4@,
        }
    }
}

impl View for SMT {
    type V = SMTView;

    open spec fn view(&self) -> SMTView {
        SMTView { header: self.header, tiles: views(self.tiles@) }
    }
}

/// The tile record stored at `at`.
pub open spec fn tile_at(s: Seq<u8>, at: int) -> TileView {
    TileView {
        mip_map32: s.subrange(at, at + 512),
        mip_map16: s.subrange(at + 512, at + 640),
        mip_map8: s.subrange(at + 640, at + 672),
        mip_map4: s.subrange(at + 672, at + 680),
    }
}

/// The header stored behind the signature.
pub open spec fn smt_header_at(s: Seq<u8>) -> SMTHeader {
    SMTHeader {
        version: le_i32(s, 16),
        num_tiles: le_u32(s, 20),
        tile_size: le_u32(s, 24),
        compression_type: le_i32(s, 28),
    }
}

/// The archive that a stream denotes, or the reason why it denotes none.
///
/// A stream without the signature is `BadMagic`, whatever else it holds. One
/// that ends inside the header or inside the tile records that the header
/// announces is `Truncated`. Bytes behind the last tile record are ignored.
pub open spec fn smt_model(s: Seq<u8>) -> Result<SMTView, FormatError> {
    if !starts_with(s, smt_magic()) {
        Err(FormatError::BadMagic)
    } else if s.len() < 32 {
        Err(FormatError::Truncated)
    } else if s.len() < 32 + 680 * smt_header_at(s).num_tiles {
        Err(FormatError::Truncated)
    } else {
        Ok(
            SMTView {
                header: smt_header_at(s),
                tiles: Seq::new(
                    smt_header_at(s).num_tiles as nat,
                    |i: int| tile_at(s, 32 + 680 * i),
                ),
            },
        )
    }
}

impl Tile {
    /// Reads the tile record at `at`.
    pub fn read_at(bytes: &[u8], at: usize) -> (r: Result<Tile, FormatError>)
        ensures
            match r {
                Ok(tile) => in_bounds(bytes@, at as int, 680) && tile@ == tile_at(
                    bytes@,
                    at as int,
                ),
                Err(e) => !in_bounds(bytes@, at as int, 680) && e == FormatError::Truncated,
            },
    {
        if at > bytes.len() || bytes.len() - at < TILE_RECORD_LEN {
            return Err(FormatError::Truncated);
        }
        let mip_map32: Vec<u8> = read_u8s(bytes, at, 512)?;
        let mip_map16: Vec<u8> = read_u8s(bytes, at + 512, 128)?;
        let mip_map8: Vec<u8> = read_u8s(bytes, at + 640, 32)?;
        let mip_map4: Vec<u8> = read_u8s(bytes, at + 672, 8)?;
        Ok(Tile { mip_map32, mip_map16, mip_map8, mip_map4 })
    }
}

impl SMTHeader {
    /// Reads the four fields behind the signature. A stream of less than 32
    /// bytes is `Truncated`. The signature itself is not looked at.
    pub fn read(bytes: &[u8]) -> (r: Result<SMTHeader, FormatError>)
        ensures
            bytes@.len() >= 32 ==> r == Ok::<SMTHeader, FormatError>(smt_header_at(bytes@)),
            bytes@.len() < 32 ==> r == Err::<SMTHeader, FormatError>(FormatError::Truncated),
    {
        if bytes.len() < SMT_TILES_START {
            return Err(FormatError::Truncated);
        }
        let version: i32 = read_i32(bytes, 16)?;
        let num_tiles: u32 = read_u32(bytes, 20)?;
        let tile_size: u32 = read_u32(bytes, 24)?;
        let compression_type: i32 = read_i32(bytes, 28)?;
        Ok(SMTHeader { version, num_tiles, tile_size, compression_type })
    }
}

impl SMT {
    /// Decodes a tile archive from the bytes of its stream.
    ///
    /// The result is the archive that `smt_model` gives for these bytes, or
    /// its error. The compression type is handed on as it is read: the
    /// texture engine is the one to reject what it cannot decompress.
    pub fn read(bytes: &[u8]) -> (r: Result<SMT, FormatError>)
        ensures
            match r {
                Ok(smt) => smt_model(bytes@) == Ok::<SMTView, FormatError>(smt@) && smt@.wf(),
                Err(e) => smt_model(bytes@) == Err::<SMTView, FormatError>(e),
            },
    {
        let magic: [u8; 16] = [
            115, 112, 114, 105, 110, 103, 32, 116, 105, 108, 101, 102, 105, 108, 101, 0,
        ];
        assert(magic@ =~= smt_magic());
        if !has_prefix(bytes, magic.as_slice()) {
            return Err(FormatError::BadMagic);
        }
        let header: SMTHeader = SMTHeader::read(bytes)?;
        let n: usize = header.num_tiles as usize;
        if n > (bytes.len() - SMT_TILES_START) / TILE_RECORD_LEN {
            return Err(FormatError::Truncated);
        }
        let mut tiles: Vec<Tile> = Vec::with_capacity(n);
        let mut i: usize = 0;
        while i < n
            invariant
                i <= n,
                32 + 680 * n <= bytes.len(),
                tiles@.len() == i,
                forall|k: int|
                    0 <= k < i ==> (#[trigger] tiles@[k])@ == tile_at(bytes@, 32 + 680 * k),
            decreases n - i,
        {
            let at: usize = SMT_TILES_START + 680 * i;
            let tile: Tile = Tile::read_at(bytes, at)?;
            tiles.push(tile);
            i += 1;
        }
        let smt: SMT = SMT { header, tiles };
        assert(smt@.tiles =~= smt_model(bytes@)->Ok_0.tiles);
        Ok(smt)
    }
}

/// Decoding twice gives the same: two results that `SMT::read` may give for
/// one stream are both errors, and the same one, or both archives with the
/// same content, whose lengths are those that the header gives.
pub proof fn lemma_smt_read_repeats(
    bytes: Seq<u8>,
    first: Result<SMT, FormatError>,
    second: Result<SMT, FormatError>,
)
    requires
        match first {
            Ok(smt) => smt_model(bytes) == Ok::<SMTView, FormatError>(smt@),
            Err(e) => smt_model(bytes) == Err::<SMTView, FormatError>(e),
        },
        match second {
            Ok(smt) => smt_model(bytes) == Ok::<SMTView, FormatError>(smt@),
            Err(e) => smt_model(bytes) == Err::<SMTView, FormatError>(e),
        },
    ensures
        match (first, second) {
            (Ok(a), Ok(b)) => a@ == b@ && a@.wf(),
            (Err(e1), Err(e2)) => e1 == e2,
            _ => false,
        },
{
}

/// A stream that is shorter than the signature, or differs from it in one
/// of its sixteen bytes, is `BadMagic`, whatever follows.
pub proof fn lemma_smt_bad_magic(bytes: Seq<u8>, i: int)
    requires
        bytes.len() < 16 || (0 <= i < 16 && bytes[i] != smt_magic()[i]),
    ensures
        smt_model(bytes) == Err::<SMTView, FormatError>(FormatError::BadMagic),
{
}

} // verus!
