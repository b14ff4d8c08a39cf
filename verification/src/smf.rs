//! The map container: a signature, a fixed header, extension records behind
//! it, and six sections that the header addresses by absolute offset.

use crate::error::FormatError;
use crate::wire::cstr_at;
use crate::wire::has_prefix;
use crate::wire::in_bounds;
use crate::wire::le_i32;
use crate::wire::le_u16s;
use crate::wire::le_u32;
use crate::wire::le_u32s;
use crate::wire::lemma_views_push;
use crate::wire::read_cstr;
use crate::wire::read_i32;
use crate::wire::read_u16s;
use crate::wire::read_u32;
use crate::wire::read_u32s;
use crate::wire::read_u8s;
use crate::wire::seek;
use crate::wire::starts_with;
use crate::wire::views;
use vstd::prelude::*;

verus! {

/// The fixed header of a map container.
///
/// `min_height` and `max_height` are stored as 32-bit floating-point numbers;
/// the fields hold their bit patterns, as `f32::to_bits` gives them.
#[derive(Clone, Copy, Debug, PartialEq, Eq, Structural)]
pub struct SMFHeader {
    pub version: u32,
    pub id: u32,
    pub width: u32,
    pub length: u32,
    pub square_size: u32,
    pub texel_per_square: u32,
    pub tile_size: u32,
    pub min_height: u32,
    pub max_height: u32,
    pub height_map_ptr: u32,
    pub type_map_ptr: u32,
    pub tiles_ptr: u32,
    pub minimap_ptr: u32,
    pub metal_map_ptr: u32,
    pub feature_ptr: u32,
    pub extra_header_count: u32,
}

/// An extension record: its size, its type and `size_of_header` bytes that
/// this library carries along unread.
#[derive(Clone, Debug)]
pub struct ExtraHeaders {
    pub size_of_header: u32,
    pub type_of_header: u32,
    pub data: Vec<u8>,
}

/// Terrain heights, one for each corner of each map square.
#[derive(Clone, Debug)]
pub struct HeightMap(pub Vec<u16>);

/// Terrain types, one for each block of two by two map squares.
#[derive(Clone, Debug)]
pub struct TypeMap(pub Vec<u8>);

/// The thumbnail: a BC1 image of 1024 by 1024 pixels with its mip levels.
#[derive(Clone, Debug)]
pub struct MiniMap(pub Vec<u8>);

/// Counts at the head of the tile section.
#[derive(Clone, Copy, Debug, PartialEq, Eq, Structural)]
pub struct TileIndexHeader {
    pub number_of_tile_files: u32,
    pub total_number_of_tiles_in_all_files: u32,
}

/// Names one tile archive that the index table refers to. The file name is
/// held without its terminating zero byte.
#[derive(Clone, Debug)]
pub struct SMTFileInfos {
    pub number_of_tiles_in_this_file: u32,
    pub smt_filename: Vec<u8>,
}

/// The tile of each block of four by four map squares, row by row.
#[derive(Clone, Debug)]
pub struct TileIndex(pub Vec<u32>);

/// The tile section.
#[derive(Clone, Debug)]
pub struct TileInfo {
    pub header: TileIndexHeader,
    pub smt_file_info: Vec<SMTFileInfos>,
    pub tile_index: TileIndex,
}

/// Metal density, one value for each block of two by two map squares.
#[derive(Clone, Debug)]
pub struct MetalMap(pub Vec<u8>);

/// One placed object. The five values behind `feature_type` are stored as
/// 32-bit floating-point numbers; the fields hold their bit patterns.
#[derive(Clone, Copy, Debug, PartialEq, Eq, Structural)]
pub struct Feature {
    pub feature_type: u32,
    pub x: u32,
    pub y: u32,
    pub z: u32,
    pub rotation: u32,
    pub relative_size: u32,
}

/// The head of the feature section: two counts and `num_features` names,
/// each held without its terminating zero byte.
#[derive(Clone, Debug)]
pub struct FeaturesHeader {
    pub num_features: i32,
    pub num_feature_types: i32,
    pub feature_names: Vec<Vec<u8>>,
}

/// The feature section: its head and `num_feature_types` records.
#[derive(Clone, Debug)]
pub struct Features {
    pub header: FeaturesHeader,
    pub features: Vec<Feature>,
}

/// A decoded map container.
#[derive(Clone, Debug)]
pub struct SMF {
    pub header: SMFHeader,
    pub extra_headers: Vec<ExtraHeaders>,
    pub height_map: HeightMap,
    pub type_map: TypeMap,
    pub mini_map: MiniMap,
    pub smt_file_info: TileInfo,
    pub metal_map: MetalMap,
    pub features: Features,
}

/// What an `ExtraHeaders` holds, as sequences.
pub struct ExtraHeadersView {
    pub size_of_header: u32,
    pub type_of_header: u32,
    pub data: Seq<u8>,
}

/// What an `SMTFileInfos` holds, as sequences.
pub struct SMTFileInfosView {
    pub number_of_tiles_in_this_file: u32,
    pub smt_filename: Seq<u8>,
}

/// What a `TileInfo` holds, as sequences.
pub struct TileInfoView {
    pub header: TileIndexHeader,
    pub smt_file_info: Seq<SMTFileInfosView>,
    pub tile_index: Seq<u32>,
}

/// What a `FeaturesHeader` holds, as sequences.
pub struct FeaturesHeaderView {
    pub num_features: i32,
    pub num_feature_types: i32,
    pub feature_names: Seq<Seq<u8>>,
}

/// What a `Features` holds, as sequences.
pub struct FeaturesView {
    pub header: FeaturesHeaderView,
    pub features: Seq<Feature>,
}

/// What an `SMF` holds, as sequences.
pub struct SMFView {
    pub header: SMFHeader,
    pub extra_headers: Seq<ExtraHeadersView>,
    pub height_map: Seq<u16>,
    pub type_map: Seq<u8>,
    pub mini_map: Seq<u8>,
    pub smt_file_info: TileInfoView,
    pub metal_map: Seq<u8>,
    pub features: FeaturesView,
}

impl View for ExtraHeaders {
    type V = ExtraHeadersView;

    open spec fn view(&self) -> ExtraHeadersView {
        ExtraHeadersView {
            size_of_header: self.size_of_header,
            type_of_header: self.type_of_header,
            data: self.data@,
        }
    }
}

impl View for HeightMap {
    type V = Seq<u16>;

    open spec fn view(&self) -> Seq<u16> {
        self.0@
    }
}

impl View for TypeMap {
    type V = Seq<u8>;

    open spec fn view(&self) -> Seq<u8> {
        self.0@
    }
}

impl View for MiniMap {
    type V = Seq<u8>;

    open spec fn view(&self) -> Seq<u8> {
        self.0@
    }
}

impl View for TileIndex {
    type V = Seq<u32>;

    open spec fn view(&self) -> Seq<u32> {
        self.0@
    }
}

impl View for MetalMap {
    type V = Seq<u8>;

    open spec fn view(&self) -> Seq<u8> {
        self.0@
    }
}

impl View for SMTFileInfos {
    type V = SMTFileInfosView;

    open spec fn view(&self) -> SMTFileInfosView {
        SMTFileInfosView {
            number_of_tiles_in_this_file: self.number_of_tiles_in_this_file,
            smt_filename: self.smt_filename@,
        }
    }
}

impl View for TileInfo {
    type V = TileInfoView;

    open spec fn view(&self) -> TileInfoView {
        TileInfoView {
            header: self.header,
            smt_file_info: views(self.smt_file_info@),
            tile_index: self.tile_index@,
        }
    }
}

impl View for FeaturesHeader {
    type V = FeaturesHeaderView;

    open spec fn view(&self) -> FeaturesHeaderView {
        FeaturesHeaderView {
            num_features: self.num_features,
            num_feature_types: self.num_feature_types,
            feature_names: views(self.feature_names@),
        }
    }
}

impl View for Features {
    type V = FeaturesView;

    open spec fn view(&self) -> FeaturesView {
        FeaturesView { header: self.header@, features: self.features@ }
    }
}

impl View for SMF {
    type V = SMFView;

    open spec fn view(&self) -> SMFView {
        SMFView {
            header: self.header,
            extra_headers: views(self.extra_headers@),
            height_map: self.height_map@,
            type_map: self.type_map@,
            mini_map: self.mini_map@,
            smt_file_info: self.smt_file_info@,
            metal_map: self.metal_map@,
            features: self.features@,
        }
    }
}

/// Offset of the first extension record: the signature and the sixteen
/// fields of the header come first.
pub const SMF_HEADER_END: usize = 80;

/// Bytes of the thumbnail section.
pub const MINIMAP_LEN: u64 = 699048;

/// Bytes of one feature record.
pub const FEATURE_RECORD_LEN: usize = 24;

/// The signature of a map container: the text `spring map file` and a zero
/// byte.
pub open spec fn smf_magic() -> Seq<u8> {
    seq![
        115u8, 112u8, 114u8, 105u8, 110u8, 103u8, 32u8, 109u8,
        97u8, 112u8, 32u8, 102u8, 105u8, 108u8, 101u8, 0u8,
    ]
}

/// The header stored behind the signature: sixteen fields of four bytes.
pub open spec fn smf_header_at(s: Seq<u8>) -> SMFHeader {
    SMFHeader {
        version: le_u32(s, 16),
        id: le_u32(s, 20),
        width: le_u32(s, 24),
        length: le_u32(s, 28),
        square_size: le_u32(s, 32),
        texel_per_square: le_u32(s, 36),
        tile_size: le_u32(s, 40),
        min_height: le_u32(s, 44),
        max_height: le_u32(s, 48),
        height_map_ptr: le_u32(s, 52),
        type_map_ptr: le_u32(s, 56),
        tiles_ptr: le_u32(s, 60),
        minimap_ptr: le_u32(s, 64),
        metal_map_ptr: le_u32(s, 68),
        feature_ptr: le_u32(s, 72),
        extra_header_count: le_u32(s, 76),
    }
}

/// The extension record stored at `at` and the offset behind it: two fields
/// of four bytes and as many bytes as the first of them says.
pub open spec fn extra_header_at(s: Seq<u8>, at: int) -> Result<
    (ExtraHeadersView, int),
    FormatError,
> {
    if !in_bounds(s, at, 8) {
        Err(FormatError::Truncated)
    } else if !in_bounds(s, at + 8, le_u32(s, at) as int) {
        Err(FormatError::Truncated)
    } else {
        Ok(
            (
                ExtraHeadersView {
                    size_of_header: le_u32(s, at),
                    type_of_header: le_u32(s, at + 4),
                    data: s.subrange(at + 8, at + 8 + le_u32(s, at)),
                },
                at + 8 + le_u32(s, at),
            ),
        )
    }
}

/// `n` extension records, one behind the other, the first of them at `at`,
/// and the offset behind the last.
pub open spec fn extra_headers_at(s: Seq<u8>, at: int, n: nat) -> Result<
    (Seq<ExtraHeadersView>, int),
    FormatError,
>
    decreases n,
{
    if n == 0 {
        Ok((Seq::empty(), at))
    } else {
        match extra_header_at(s, at) {
            Err(e) => Err(e),
            Ok((first, next)) => match extra_headers_at(s, next, (n - 1) as nat) {
                Err(e) => Err(e),
                Ok((rest, end)) => Ok((seq![first] + rest, end)),
            },
        }
    }
}

/// A section of `count` bytes at the absolute offset `ptr`.
pub open spec fn byte_section(s: Seq<u8>, ptr: u32, count: int) -> Result<Seq<u8>, FormatError> {
    if ptr > s.len() {
        Err(FormatError::SeekOutOfRange)
    } else if !in_bounds(s, ptr as int, count) {
        Err(FormatError::Truncated)
    } else {
        Ok(s.subrange(ptr as int, ptr + count))
    }
}

/// Samples of the height map: one for each corner of each square.
pub open spec fn height_map_len(width: u32, length: u32) -> int {
    (width + 1) * (length + 1)
}

/// Samples of the type map, and of the metal map: one for each block of two
/// by two squares.
pub open spec fn half_map_len(width: u32, length: u32) -> int {
    (width / 2) * (length / 2)
}

/// Entries of the tile index table: one for each block of four by four
/// squares.
pub open spec fn tile_index_len(width: u32, length: u32) -> int {
    (width / 4) * (length / 4)
}

/// The height map at the absolute offset `ptr`.
pub open spec fn height_map_at(s: Seq<u8>, ptr: u32, width: u32, length: u32) -> Result<
    Seq<u16>,
    FormatError,
> {
    if ptr > s.len() {
        Err(FormatError::SeekOutOfRange)
    } else if !in_bounds(s, ptr as int, 2 * height_map_len(width, length)) {
        Err(FormatError::Truncated)
    } else {
        Ok(le_u16s(s, ptr as int, height_map_len(width, length) as nat))
    }
}

impl SMFHeader {
    /// Reads the sixteen fields behind the signature. A stream of less than
    /// 80 bytes is `Truncated`. The signature itself is not looked at.
    pub fn read(bytes: &[u8]) -> (r: Result<SMFHeader, FormatError>)
        ensures
            bytes@.len() >= 80 ==> r == Ok::<SMFHeader, FormatError>(smf_header_at(bytes@)),
            bytes@.len() < 80 ==> r == Err::<SMFHeader, FormatError>(FormatError::Truncated),
    {
        if bytes.len() < SMF_HEADER_END {
            return Err(FormatError::Truncated);
        }
        let fields: Vec<u32> = read_u32s(bytes, 16, 16)?;
        Ok(
            SMFHeader {
                version: fields[0],
                id: fields[1],
                width: fields[2],
                length: fields[3],
                square_size: fields[4],
                texel_per_square: fields[5],
                tile_size: fields[6],
                min_height: fields[7],
                max_height: fields[8],
                height_map_ptr: fields[9],
                type_map_ptr: fields[10],
                tiles_ptr: fields[11],
                minimap_ptr: fields[12],
                metal_map_ptr: fields[13],
                feature_ptr: fields[14],
                extra_header_count: fields[15],
            },
        )
    }
}

impl ExtraHeaders {
    /// Reads the extension record at `at` and gives the offset behind it.
    pub fn read_at(bytes: &[u8], at: usize) -> (r: Result<(ExtraHeaders, usize), FormatError>)
        ensures
            match r {
                Ok((header, next)) => extra_header_at(bytes@, at as int) == Ok::<
                    (ExtraHeadersView, int),
                    FormatError,
                >((header@, next as int)),
                Err(e) => extra_header_at(bytes@, at as int) == Err::<
                    (ExtraHeadersView, int),
                    FormatError,
                >(e),
            },
    {
        if at > bytes.len() || bytes.len() - at < 8 {
            return Err(FormatError::Truncated);
        }
        let size_of_header: u32 = read_u32(bytes, at)?;
        let type_of_header: u32 = read_u32(bytes, at + 4)?;
        let data: Vec<u8> = read_u8s(bytes, at + 8, size_of_header as usize)?;
        let next: usize = at + 8 + size_of_header as usize;
        Ok((ExtraHeaders { size_of_header, type_of_header, data }, next))
    }

    /// Reads `count` extension records, one behind the other, from `start`
    /// on, and gives the offset behind the last.
    pub fn read_many(bytes: &[u8], start: usize, count: u32) -> (r: Result<
        (Vec<ExtraHeaders>, usize),
        FormatError,
    >)
        ensures
            match r {
                Ok((headers, end)) => extra_headers_at(bytes@, start as int, count as nat) == Ok::<
                    (Seq<ExtraHeadersView>, int),
                    FormatError,
                >((views(headers@), end as int)),
                Err(e) => extra_headers_at(bytes@, start as int, count as nat) == Err::<
                    (Seq<ExtraHeadersView>, int),
                    FormatError,
                >(e),
            },
    {
        let ghost whole = extra_headers_at(bytes@, start as int, count as nat);
        let mut headers: Vec<ExtraHeaders> = Vec::new();
        let mut at: usize = start;
        let mut i: u32 = 0;
        assert(views(headers@) + extra_headers_at(bytes@, at as int, count as nat)->Ok_0.0
            =~= extra_headers_at(bytes@, at as int, count as nat)->Ok_0.0);
        while i < count
            invariant
                i <= count,
                whole == extra_headers_at(bytes@, start as int, count as nat),
                match extra_headers_at(bytes@, at as int, (count - i) as nat) {
                    Err(e) => whole == Err::<(Seq<ExtraHeadersView>, int), FormatError>(e),
                    Ok((rest, end)) => whole == Ok::<(Seq<ExtraHeadersView>, int), FormatError>(
                        (views(headers@) + rest, end),
                    ),
                },
            decreases count - i,
        {
            let ghost before = views(headers@);
            match ExtraHeaders::read_at(bytes, at) {
                Err(e) => {
                    return Err(e);
                },
                Ok((header, next)) => {
                    proof {
                        lemma_views_push(headers@, header);
                        let tail = extra_headers_at(bytes@, next as int, (count - i - 1) as nat);
                        if tail is Ok {
                            assert(before + (seq![header@] + tail->Ok_0.0) =~= before.push(header@)
                                + tail->Ok_0.0);
                        }
                    }
                    headers.push(header);
                    at = next;
                    i += 1;
                },
            }
        }
        assert(views(headers@) + Seq::<ExtraHeadersView>::empty() =~= views(headers@));
        Ok((headers, at))
    }
}

/// Computes the number of samples of a height map.
pub fn height_map_count(width: u32, length: u32) -> (count: u128)
    ensures
        count == height_map_len(width, length),
{
    assert((width + 1) * (length + 1) <= 0x1_0000_0000 * 0x1_0000_0000) by (nonlinear_arith)
        requires
            0 <= width < 0x1_0000_0000,
            0 <= length < 0x1_0000_0000,
    ;
    (width as u128 + 1) * (length as u128 + 1)
}

impl HeightMap {
    /// Reads the height map of a map of `width` by `length` squares at the
    /// absolute offset `ptr`.
    pub fn read_at(bytes: &[u8], ptr: u32, width: u32, length: u32) -> (r: Result<
        HeightMap,
        FormatError,
    >)
        ensures
            match r {
                Ok(map) => height_map_at(bytes@, ptr, width, length) == Ok::<Seq<u16>, FormatError>(
                    map@,
                ),
                Err(e) => height_map_at(bytes@, ptr, width, length) == Err::<Seq<u16>, FormatError>(
                    e,
                ),
            },
    {
        let at: usize = seek(bytes, ptr)?;
        let count: u128 = height_map_count(width, length);
        if count > (bytes.len() - at) as u128 {
            return Err(FormatError::Truncated);
        }
        match read_u16s(bytes, at, count as usize) {
            Ok(samples) => Ok(HeightMap(samples)),
            Err(e) => Err(e),
        }
    }
}

/// Reads a section of `count` bytes at the absolute offset `ptr`.
pub fn read_byte_section(bytes: &[u8], ptr: u32, count: u64) -> (r: Result<Vec<u8>, FormatError>)
    ensures
        match r {
            Ok(v) => byte_section(bytes@, ptr, count as int) == Ok::<Seq<u8>, FormatError>(v@),
            Err(e) => byte_section(bytes@, ptr, count as int) == Err::<Seq<u8>, FormatError>(e),
        },
{
    let at: usize = seek(bytes, ptr)?;
    if count > (bytes.len() - at) as u64 {
        return Err(FormatError::Truncated);
    }
    read_u8s(bytes, at, count as usize)
}

/// Computes the number of samples of a type map or a metal map.
pub fn half_map_count(width: u32, length: u32) -> (count: u64)
    ensures
        count == half_map_len(width, length),
{
    assert((width / 2) * (length / 2) <= 0x8000_0000 * 0x8000_0000) by (nonlinear_arith)
        requires
            0 <= width / 2 < 0x8000_0000,
            0 <= length / 2 < 0x8000_0000,
    ;
    (width / 2) as u64 * (length / 2) as u64
}

impl TypeMap {
    /// Reads the type map of a map of `width` by `length` squares at the
    /// absolute offset `ptr`.
    pub fn read_at(bytes: &[u8], ptr: u32, width: u32, length: u32) -> (r: Result<
        TypeMap,
        FormatError,
    >)
        ensures
            match r {
                Ok(map) => byte_section(bytes@, ptr, half_map_len(width, length)) == Ok::<
                    Seq<u8>,
                    FormatError,
                >(map@),
                Err(e) => byte_section(bytes@, ptr, half_map_len(width, length)) == Err::<
                    Seq<u8>,
                    FormatError,
                >(e),
            },
    {
        match read_byte_section(bytes, ptr, half_map_count(width, length)) {
            Ok(samples) => Ok(TypeMap(samples)),
            Err(e) => Err(e),
        }
    }
}

impl MetalMap {
    /// Reads the metal map of a map of `width` by `length` squares at the
    /// absolute offset `ptr`.
    pub fn read_at(bytes: &[u8], ptr: u32, width: u32, length: u32) -> (r: Result<
        MetalMap,
        FormatError,
    >)
        ensures
            match r {
                Ok(map) => byte_section(bytes@, ptr, half_map_len(width, length)) == Ok::<
                    Seq<u8>,
                    FormatError,
                >(map@),
                Err(e) => byte_section(bytes@, ptr, half_map_len(width, length)) == Err::<
                    Seq<u8>,
                    FormatError,
                >(e),
            },
    {
        match read_byte_section(bytes, ptr, half_map_count(width, length)) {
            Ok(samples) => Ok(MetalMap(samples)),
            Err(e) => Err(e),
        }
    }
}

impl MiniMap {
    /// Reads the thumbnail at the absolute offset `ptr`.
    pub fn read_at(bytes: &[u8], ptr: u32) -> (r: Result<MiniMap, FormatError>)
        ensures
            match r {
                Ok(map) => byte_section(bytes@, ptr, 699048) == Ok::<Seq<u8>, FormatError>(map@),
                Err(e) => byte_section(bytes@, ptr, 699048) == Err::<Seq<u8>, FormatError>(e),
            },
    {
        match read_byte_section(bytes, ptr, MINIMAP_LEN) {
            Ok(data) => Ok(MiniMap(data)),
            Err(e) => Err(e),
        }
    }
}

/// The archive descriptor stored at `at` and the offset behind it: a count
/// of four bytes and a zero-terminated file name.
pub open spec fn file_info_at(s: Seq<u8>, at: int) -> Result<(SMTFileInfosView, int), FormatError> {
    if !in_bounds(s, at, 4) {
        Err(FormatError::Truncated)
    } else {
        match cstr_at(s, at + 4) {
            None => Err(FormatError::Truncated),
            Some((name, next)) => Ok(
                (
                    SMTFileInfosView {
                        number_of_tiles_in_this_file: le_u32(s, at),
                        smt_filename: name,
                    },
                    next,
                ),
            ),
        }
    }
}

/// `n` archive descriptors, one behind the other, the first of them at `at`,
/// and the offset behind the last.
pub open spec fn file_infos_at(s: Seq<u8>, at: int, n: nat) -> Result<
    (Seq<SMTFileInfosView>, int),
    FormatError,
>
    decreases n,
{
    if n == 0 {
        Ok((Seq::empty(), at))
    } else {
        match file_info_at(s, at) {
            Err(e) => Err(e),
            Ok((first, next)) => match file_infos_at(s, next, (n - 1) as nat) {
                Err(e) => Err(e),
                Ok((rest, end)) => Ok((seq![first] + rest, end)),
            },
        }
    }
}

/// The tile section at the absolute offset `ptr`: two counts, the archive
/// descriptors, and behind them the index table.
pub open spec fn tile_info_at(s: Seq<u8>, ptr: u32, width: u32, length: u32) -> Result<
    TileInfoView,
    FormatError,
> {
    if ptr > s.len() {
        Err(FormatError::SeekOutOfRange)
    } else if !in_bounds(s, ptr as int, 8) {
        Err(FormatError::Truncated)
    } else {
        match file_infos_at(s, ptr + 8, le_u32(s, ptr as int) as nat) {
            Err(e) => Err(e),
            Ok((infos, at)) => if !in_bounds(s, at, 4 * tile_index_len(width, length)) {
                Err(FormatError::Truncated)
            } else {
                Ok(
                    TileInfoView {
                        header: TileIndexHeader {
                            number_of_tile_files: le_u32(s, ptr as int),
                            total_number_of_tiles_in_all_files: le_u32(s, ptr + 4),
                        },
                        smt_file_info: infos,
                        tile_index: le_u32s(s, at, tile_index_len(width, length) as nat),
                    },
                )
            },
        }
    }
}

/// `n` zero-terminated names, one behind the other, the first of them at
/// `at`, and the offset behind the last.
pub open spec fn names_at(s: Seq<u8>, at: int, n: nat) -> Result<(Seq<Seq<u8>>, int), FormatError>
    decreases n,
{
    if n == 0 {
        Ok((Seq::empty(), at))
    } else {
        match cstr_at(s, at) {
            None => Err(FormatError::Truncated),
            Some((first, next)) => match names_at(s, next, (n - 1) as nat) {
                Err(e) => Err(e),
                Ok((rest, end)) => Ok((seq![first] + rest, end)),
            },
        }
    }
}

/// The feature record stored at `at`: six fields of four bytes.
pub open spec fn feature_at(s: Seq<u8>, at: int) -> Feature {
    Feature {
        feature_type: le_u32(s, at),
        x: le_u32(s, at + 4),
        y: le_u32(s, at + 8),
        z: le_u32(s, at + 12),
        rotation: le_u32(s, at + 16),
        relative_size: le_u32(s, at + 20),
    }
}

/// The head of the feature section stored at `at` and the offset behind it:
/// two signed counts, then as many names as the first count says. A negative
/// first count is `InvalidDimensions`.
pub open spec fn features_header_at(s: Seq<u8>, at: int) -> Result<
    (FeaturesHeaderView, int),
    FormatError,
> {
    if !in_bounds(s, at, 8) {
        Err(FormatError::Truncated)
    } else if le_i32(s, at) < 0 {
        Err(FormatError::InvalidDimensions)
    } else {
        match names_at(s, at + 8, le_i32(s, at) as nat) {
            Err(e) => Err(e),
            Ok((names, end)) => Ok(
                (
                    FeaturesHeaderView {
                        num_features: le_i32(s, at),
                        num_feature_types: le_i32(s, at + 4),
                        feature_names: names,
                    },
                    end,
                ),
            ),
        }
    }
}

/// The feature section at the absolute offset `ptr`: its head, and behind it
/// as many records as the second count of the head says. A negative second
/// count is `InvalidDimensions`.
pub open spec fn features_at(s: Seq<u8>, ptr: u32) -> Result<FeaturesView, FormatError> {
    if ptr > s.len() {
        Err(FormatError::SeekOutOfRange)
    } else {
        match features_header_at(s, ptr as int) {
            Err(e) => Err(e),
            Ok((header, at)) => if header.num_feature_types < 0 {
                Err(FormatError::InvalidDimensions)
            } else if !in_bounds(s, at, 24 * header.num_feature_types) {
                Err(FormatError::Truncated)
            } else {
                Ok(
                    FeaturesView {
                        header,
                        features: Seq::new(
                            header.num_feature_types as nat,
                            |i: int| feature_at(s, at + 24 * i),
                        ),
                    },
                )
            },
        }
    }
}

impl SMTFileInfos {
    /// Reads the archive descriptor at `at` and gives the offset behind it.
    pub fn read_at(bytes: &[u8], at: usize) -> (r: Result<(SMTFileInfos, usize), FormatError>)
        ensures
            match r {
                Ok((info, next)) => file_info_at(bytes@, at as int) == Ok::<
                    (SMTFileInfosView, int),
                    FormatError,
                >((info@, next as int)),
                Err(e) => file_info_at(bytes@, at as int) == Err::<
                    (SMTFileInfosView, int),
                    FormatError,
                >(e),
            },
    {
        if at > bytes.len() || bytes.len() - at < 4 {
            return Err(FormatError::Truncated);
        }
        let number_of_tiles_in_this_file: u32 = read_u32(bytes, at)?;
        match read_cstr(bytes, at + 4) {
            Ok((smt_filename, next)) => Ok(
                (SMTFileInfos { number_of_tiles_in_this_file, smt_filename }, next),
            ),
            Err(e) => Err(e),
        }
    }

    /// Reads `count` archive descriptors, one behind the other, from `start`
    /// on, and gives the offset behind the last.
    pub fn read_many(bytes: &[u8], start: usize, count: u32) -> (r: Result<
        (Vec<SMTFileInfos>, usize),
        FormatError,
    >)
        ensures
            match r {
                Ok((infos, end)) => file_infos_at(bytes@, start as int, count as nat) == Ok::<
                    (Seq<SMTFileInfosView>, int),
                    FormatError,
                >((views(infos@), end as int)),
                Err(e) => file_infos_at(bytes@, start as int, count as nat) == Err::<
                    (Seq<SMTFileInfosView>, int),
                    FormatError,
                >(e),
            },
    {
        let ghost whole = file_infos_at(bytes@, start as int, count as nat);
        let mut infos: Vec<SMTFileInfos> = Vec::new();
        let mut at: usize = start;
        let mut i: u32 = 0;
        assert(views(infos@) + file_infos_at(bytes@, at as int, count as nat)->Ok_0.0
            =~= file_infos_at(bytes@, at as int, count as nat)->Ok_0.0);
        while i < count
            invariant
                i <= count,
                whole == file_infos_at(bytes@, start as int, count as nat),
                match file_infos_at(bytes@, at as int, (count - i) as nat) {
                    Err(e) => whole == Err::<(Seq<SMTFileInfosView>, int), FormatError>(e),
                    Ok((rest, end)) => whole == Ok::<(Seq<SMTFileInfosView>, int), FormatError>(
                        (views(infos@) + rest, end),
                    ),
                },
            decreases count - i,
        {
            let ghost before = views(infos@);
            match SMTFileInfos::read_at(bytes, at) {
                Err(e) => {
                    return Err(e);
                },
                Ok((info, next)) => {
                    proof {
                        lemma_views_push(infos@, info);
                        let tail = file_infos_at(bytes@, next as int, (count - i - 1) as nat);
                        if tail is Ok {
                            assert(before + (seq![info@] + tail->Ok_0.0) =~= before.push(info@)
                                + tail->Ok_0.0);
                        }
                    }
                    infos.push(info);
                    at = next;
                    i += 1;
                },
            }
        }
        assert(views(infos@) + Seq::<SMTFileInfosView>::empty() =~= views(infos@));
        Ok((infos, at))
    }
}

/// Computes the number of entries of the tile index table.
pub fn tile_index_count(width: u32, length: u32) -> (count: u64)
    ensures
        count == tile_index_len(width, length),
{
    assert((width / 4) * (length / 4) <= 0x4000_0000 * 0x4000_0000) by (nonlinear_arith)
        requires
            0 <= width / 4 < 0x4000_0000,
            0 <= length / 4 < 0x4000_0000,
    ;
    (width / 4) as u64 * (length / 4) as u64
}

impl TileInfo {
    /// Reads the tile section of a map of `width` by `length` squares at the
    /// absolute offset `ptr`.
    pub fn read_at(bytes: &[u8], ptr: u32, width: u32, length: u32) -> (r: Result<
        TileInfo,
        FormatError,
    >)
        ensures
            match r {
                Ok(info) => tile_info_at(bytes@, ptr, width, length) == Ok::<
                    TileInfoView,
                    FormatError,
                >(info@),
                Err(e) => tile_info_at(bytes@, ptr, width, length) == Err::<
                    TileInfoView,
                    FormatError,
                >(e),
            },
    {
        let start: usize = seek(bytes, ptr)?;
        if bytes.len() - start < 8 {
            return Err(FormatError::Truncated);
        }
        let number_of_tile_files: u32 = read_u32(bytes, start)?;
        let total_number_of_tiles_in_all_files: u32 = read_u32(bytes, start + 4)?;
        let (smt_file_info, at) = SMTFileInfos::read_many(bytes, start + 8, number_of_tile_files)?;
        let count: u64 = tile_index_count(width, length);
        if at > bytes.len() || count > (bytes.len() - at) as u64 {
            return Err(FormatError::Truncated);
        }
        let tile_index: Vec<u32> = read_u32s(bytes, at, count as usize)?;
        Ok(
            TileInfo {
                header: TileIndexHeader {
                    number_of_tile_files,
                    total_number_of_tiles_in_all_files,
                },
                smt_file_info,
                tile_index: TileIndex(tile_index),
            },
        )
    }
}

/// Reads `count` zero-terminated names, one behind the other, from `start`
/// on, and gives the offset behind the last.
pub fn read_names(bytes: &[u8], start: usize, count: u32) -> (r: Result<
    (Vec<Vec<u8>>, usize),
    FormatError,
>)
    ensures
        match r {
            Ok((names, end)) => names_at(bytes@, start as int, count as nat) == Ok::<
                (Seq<Seq<u8>>, int),
                FormatError,
            >((views(names@), end as int)),
            Err(e) => names_at(bytes@, start as int, count as nat) == Err::<
                (Seq<Seq<u8>>, int),
                FormatError,
            >(e),
        },
{
    let ghost whole = names_at(bytes@, start as int, count as nat);
    let mut names: Vec<Vec<u8>> = Vec::new();
    let mut at: usize = start;
    let mut i: u32 = 0;
    assert(views(names@) + names_at(bytes@, at as int, count as nat)->Ok_0.0 =~= names_at(
        bytes@,
        at as int,
        count as nat,
    )->Ok_0.0);
    while i < count
        invariant
            i <= count,
            whole == names_at(bytes@, start as int, count as nat),
            match names_at(bytes@, at as int, (count - i) as nat) {
                Err(e) => whole == Err::<(Seq<Seq<u8>>, int), FormatError>(e),
                Ok((rest, end)) => whole == Ok::<(Seq<Seq<u8>>, int), FormatError>(
                    (views(names@) + rest, end),
                ),
            },
        decreases count - i,
    {
        let ghost before = views(names@);
        match read_cstr(bytes, at) {
            Err(e) => {
                return Err(e);
            },
            Ok((name, next)) => {
                proof {
                    lemma_views_push(names@, name);
                    let tail = names_at(bytes@, next as int, (count - i - 1) as nat);
                    if tail is Ok {
                        assert(before + (seq![name@] + tail->Ok_0.0) =~= before.push(name@)
                            + tail->Ok_0.0);
                    }
                }
                names.push(name);
                at = next;
                i += 1;
            },
        }
    }
    assert(views(names@) + Seq::<Seq<u8>>::empty() =~= views(names@));
    Ok((names, at))
}

impl Feature {
    /// Reads the feature record at `at`.
    pub fn read_at(bytes: &[u8], at: usize) -> (r: Result<Feature, FormatError>)
        ensures
            in_bounds(bytes@, at as int, 24) ==> r == Ok::<Feature, FormatError>(
                feature_at(bytes@, at as int),
            ),
            !in_bounds(bytes@, at as int, 24) ==> r == Err::<Feature, FormatError>(
                FormatError::Truncated,
            ),
    {
        if at > bytes.len() || bytes.len() - at < FEATURE_RECORD_LEN {
            return Err(FormatError::Truncated);
        }
        let fields: Vec<u32> = read_u32s(bytes, at, 6)?;
        Ok(
            Feature {
                feature_type: fields[0],
                x: fields[1],
                y: fields[2],
                z: fields[3],
                rotation: fields[4],
                relative_size: fields[5],
            },
        )
    }
}

impl FeaturesHeader {
    /// Reads the head of the feature section at `at` and gives the offset
    /// behind it.
    pub fn read_at(bytes: &[u8], at: usize) -> (r: Result<(FeaturesHeader, usize), FormatError>)
        ensures
            match r {
                Ok((header, end)) => features_header_at(bytes@, at as int) == Ok::<
                    (FeaturesHeaderView, int),
                    FormatError,
                >((header@, end as int)),
                Err(e) => features_header_at(bytes@, at as int) == Err::<
                    (FeaturesHeaderView, int),
                    FormatError,
                >(e),
            },
    {
        if at > bytes.len() || bytes.len() - at < 8 {
            return Err(FormatError::Truncated);
        }
        let num_features: i32 = read_i32(bytes, at)?;
        let num_feature_types: i32 = read_i32(bytes, at + 4)?;
        if num_features < 0 {
            return Err(FormatError::InvalidDimensions);
        }
        match read_names(bytes, at + 8, num_features as u32) {
            Ok((feature_names, end)) => Ok(
                (FeaturesHeader { num_features, num_feature_types, feature_names }, end),
            ),
            Err(e) => Err(e),
        }
    }
}

impl Features {
    /// Reads the feature section at the absolute offset `ptr`.
    pub fn read_at(bytes: &[u8], ptr: u32) -> (r: Result<Features, FormatError>)
        ensures
            match r {
                Ok(features) => features_at(bytes@, ptr) == Ok::<FeaturesView, FormatError>(
                    features@,
                ),
                Err(e) => features_at(bytes@, ptr) == Err::<FeaturesView, FormatError>(e),
            },
    {
        let start: usize = seek(bytes, ptr)?;
        let (header, at) = FeaturesHeader::read_at(bytes, start)?;
        if header.num_feature_types < 0 {
            return Err(FormatError::InvalidDimensions);
        }
        let count: usize = header.num_feature_types as usize;
        if at > bytes.len() || count > (bytes.len() - at) / FEATURE_RECORD_LEN {
            return Err(FormatError::Truncated);
        }
        let mut features: Vec<Feature> = Vec::new();
        let mut i: usize = 0;
        while i < count
            invariant
                i <= count,
                at + 24 * count <= bytes.len(),
                features@.len() == i,
                forall|k: int|
                    0 <= k < i ==> #[trigger] features@[k] == feature_at(bytes@, at + 24 * k),
            decreases count - i,
        {
            let feature: Feature = Feature::read_at(bytes, at + 24 * i)?;
            features.push(feature);
            i += 1;
        }
        let section: Features = Features { header, features };
        assert(section@.features =~= features_at(bytes@, ptr)->Ok_0.features);
        Ok(section)
    }
}

/// The map that the header and the seven parts behind it make up, where all
/// of them decoded; else the fault of the first part that did not, in the
/// order in which they are read.
pub open spec fn assemble(
    header: SMFHeader,
    extra: Result<(Seq<ExtraHeadersView>, int), FormatError>,
    heights: Result<Seq<u16>, FormatError>,
    types: Result<Seq<u8>, FormatError>,
    mini: Result<Seq<u8>, FormatError>,
    tiles: Result<TileInfoView, FormatError>,
    metal: Result<Seq<u8>, FormatError>,
    features: Result<FeaturesView, FormatError>,
) -> Result<SMFView, FormatError> {
    if extra is Err {
        Err(extra->Err_0)
    } else if heights is Err {
        Err(heights->Err_0)
    } else if types is Err {
        Err(types->Err_0)
    } else if mini is Err {
        Err(mini->Err_0)
    } else if tiles is Err {
        Err(tiles->Err_0)
    } else if metal is Err {
        Err(metal->Err_0)
    } else if features is Err {
        Err(features->Err_0)
    } else {
        Ok(
            SMFView {
                header,
                extra_headers: extra->Ok_0.0,
                height_map: heights->Ok_0,
                type_map: types->Ok_0,
                mini_map: mini->Ok_0,
                smt_file_info: tiles->Ok_0,
                metal_map: metal->Ok_0,
                features: features->Ok_0,
            },
        )
    }
}

/// The map that a header and the stream that it was read from make up: the
/// extension records behind the header and the six sections that the header
/// points to.
pub open spec fn smf_body(s: Seq<u8>, h: SMFHeader) -> Result<SMFView, FormatError> {
    assemble(
        h,
        extra_headers_at(s, 80, h.extra_header_count as nat),
        height_map_at(s, h.height_map_ptr, h.width, h.length),
        byte_section(s, h.type_map_ptr, half_map_len(h.width, h.length)),
        byte_section(s, h.minimap_ptr, 699048),
        tile_info_at(s, h.tiles_ptr, h.width, h.length),
        byte_section(s, h.metal_map_ptr, half_map_len(h.width, h.length)),
        features_at(s, h.feature_ptr),
    )
}

/// The map that a stream denotes, or the reason why it denotes none.
///
/// A stream without the signature is `BadMagic`, whatever else it holds. The
/// header follows the signature and the extension records follow the header.
/// Each of the six sections lies where its offset in the header says; the
/// sections may overlap, leave gaps and stand in any order. The lengths of
/// the four maps and of the index table come from the width and the length
/// in the header. Of several faults the one that is met first counts, in
/// this order: extension records, height map, type map, thumbnail, tile
/// section, metal map, feature section.
pub open spec fn smf_model(s: Seq<u8>) -> Result<SMFView, FormatError> {
    if !starts_with(s, smf_magic()) {
        Err(FormatError::BadMagic)
    } else if s.len() < 80 {
        Err(FormatError::Truncated)
    } else {
        smf_body(s, smf_header_at(s))
    }
}

impl SMFView {
    /// Every array has the length that the counts and dimensions read
    /// before it give it.
    pub open spec fn wf(self) -> bool {
        &&& self.extra_headers.len() == self.header.extra_header_count
        &&& forall|i: int|
            0 <= i < self.extra_headers.len() ==> (#[trigger] self.extra_headers[i]).data.len()
                == self.extra_headers[i].size_of_header
        &&& self.height_map.len() == height_map_len(self.header.width, self.header.length)
        &&& self.type_map.len() == half_map_len(self.header.width, self.header.length)
        &&& self.mini_map.len() == 699048
        &&& self.smt_file_info.smt_file_info.len()
            == self.smt_file_info.header.number_of_tile_files
        &&& self.smt_file_info.tile_index.len() == tile_index_len(
            self.header.width,
            self.header.length,
        )
        &&& self.metal_map.len() == half_map_len(self.header.width, self.header.length)
        &&& self.features.header.feature_names.len() == self.features.header.num_features
        &&& self.features.features.len() == self.features.header.num_feature_types
    }
}

/// Extension records that decode are as many as were asked for, and each
/// carries as many bytes as its size field says.
pub proof fn lemma_extra_headers_counted(s: Seq<u8>, at: int, n: nat)
    ensures
        match extra_headers_at(s, at, n) {
            Ok((headers, end)) => headers.len() == n && forall|i: int|
                0 <= i < n ==> (#[trigger] headers[i]).data.len() == headers[i].size_of_header,
            Err(_) => true,
        },
    decreases n,
{
    if n > 0 {
        if let Ok((first, next)) = extra_header_at(s, at) {
            lemma_extra_headers_counted(s, next, (n - 1) as nat);
        }
    }
}

/// Archive descriptors that decode are as many as were asked for.
pub proof fn lemma_file_infos_counted(s: Seq<u8>, at: int, n: nat)
    ensures
        match file_infos_at(s, at, n) {
            Ok((infos, end)) => infos.len() == n,
            Err(_) => true,
        },
    decreases n,
{
    if n > 0 {
        if let Ok((first, next)) = file_info_at(s, at) {
            lemma_file_infos_counted(s, next, (n - 1) as nat);
        }
    }
}

/// Names that decode are as many as were asked for.
pub proof fn lemma_names_counted(s: Seq<u8>, at: int, n: nat)
    ensures
        match names_at(s, at, n) {
            Ok((names, end)) => names.len() == n,
            Err(_) => true,
        },
    decreases n,
{
    if n > 0 {
        if let Some((first, next)) = cstr_at(s, at) {
            lemma_names_counted(s, next, (n - 1) as nat);
        }
    }
}

/// In the map that a stream denotes, every array has the length that the
/// header and the counts before it give it.
pub proof fn lemma_smf_model_wf(s: Seq<u8>)
    ensures
        match smf_model(s) {
            Ok(smf) => smf.wf(),
            Err(_) => true,
        },
{
    if smf_model(s) is Ok {
        let h = smf_header_at(s);
        lemma_extra_headers_counted(s, 80, h.extra_header_count as nat);
        lemma_file_infos_counted(s, h.tiles_ptr + 8, le_u32(s, h.tiles_ptr as int) as nat);
        lemma_names_counted(s, h.feature_ptr + 8, le_i32(s, h.feature_ptr as int) as nat);
    }
}

impl SMF {
    /// Decodes a map container from the bytes of its stream.
    ///
    /// The result is the map that `smf_model` gives for these bytes, or its
    /// error.
    pub fn read(bytes: &[u8]) -> (r: Result<SMF, FormatError>)
        ensures
            match r {
                Ok(smf) => smf_model(bytes@) == Ok::<SMFView, FormatError>(smf@) && smf@.wf(),
                Err(e) => smf_model(bytes@) == Err::<SMFView, FormatError>(e),
            },
    {
        let magic: [u8; 16] = [
            115, 112, 114, 105, 110, 103, 32, 109, 97, 112, 32, 102, 105, 108, 101, 0,
        ];
        assert(magic@ =~= smf_magic());
        if !has_prefix(bytes, magic.as_slice()) {
            return Err(FormatError::BadMagic);
        }
        let header: SMFHeader = SMFHeader::read(bytes)?;
        let width: u32 = header.width;
        let length: u32 = header.length;
        let (extra_headers, _end) = ExtraHeaders::read_many(
            bytes,
            SMF_HEADER_END,
            header.extra_header_count,
        )?;
        let height_map: HeightMap = HeightMap::read_at(
            bytes,
            header.height_map_ptr,
            width,
            length,
        )?;
        let type_map: TypeMap = TypeMap::read_at(bytes, header.type_map_ptr, width, length)?;
        let mini_map: MiniMap = MiniMap::read_at(bytes, header.minimap_ptr)?;
        let smt_file_info: TileInfo = TileInfo::read_at(bytes, header.tiles_ptr, width, length)?;
        let metal_map: MetalMap = MetalMap::read_at(bytes, header.metal_map_ptr, width, length)?;
        let features: Features = Features::read_at(bytes, header.feature_ptr)?;
        proof {
            lemma_smf_model_wf(bytes@);
        }
        Ok(
            SMF {
                header,
                extra_headers,
                height_map,
                type_map,
                mini_map,
                smt_file_info,
                metal_map,
                features,
            },
        )
    }
}

/// Decodes a map container from the bytes of its stream: `SMF::read` under
/// the name of a function.
pub fn parse_smf(bytes: &[u8]) -> (r: Result<SMF, FormatError>)
    ensures
        match r {
            Ok(smf) => smf_model(bytes@) == Ok::<SMFView, FormatError>(smf@) && smf@.wf(),
            Err(e) => smf_model(bytes@) == Err::<SMFView, FormatError>(e),
        },
{
    SMF::read(bytes)
}

/// Decoding twice gives the same: two results that `SMF::read` may give for
/// one stream are both errors, and the same one, or both maps with the same
/// content, whose array lengths are those that the header gives.
pub proof fn lemma_smf_read_repeats(
    bytes: Seq<u8>,
    first: Result<SMF, FormatError>,
    second: Result<SMF, FormatError>,
)
    requires
        match first {
            Ok(smf) => smf_model(bytes) == Ok::<SMFView, FormatError>(smf@),
            Err(e) => smf_model(bytes) == Err::<SMFView, FormatError>(e),
        },
        match second {
            Ok(smf) => smf_model(bytes) == Ok::<SMFView, FormatError>(smf@),
            Err(e) => smf_model(bytes) == Err::<SMFView, FormatError>(e),
        },
    ensures
        match (first, second) {
            (Ok(a), Ok(b)) => a@ == b@ && a@.wf(),
            (Err(e1), Err(e2)) => e1 == e2,
            _ => false,
        },
{
    lemma_smf_model_wf(bytes);
}

/// A stream that is shorter than the signature, or differs from it in one
/// of its sixteen bytes, is `BadMagic`, whatever follows.
pub proof fn lemma_smf_bad_magic(bytes: Seq<u8>, i: int)
    requires
        bytes.len() < 16 || (0 <= i < 16 && bytes[i] != smf_magic()[i]),
    ensures
        smf_model(bytes) == Err::<SMFView, FormatError>(FormatError::BadMagic),
{
}

} // verus!
