//! What becomes of a stream that is cut short: it decodes to the same map
//! or archive, where nothing that is read was lost, or to a failure that
//! says so. Never to another map or archive.

use crate::error::FormatError;
use crate::smf::byte_section;
use crate::smf::extra_header_at;
use crate::smf::extra_headers_at;
use crate::smf::features_at;
use crate::smf::features_header_at;
use crate::smf::file_info_at;
use crate::smf::file_infos_at;
use crate::smf::height_map_at;
use crate::smf::names_at;
use crate::smf::smf_body;
use crate::smf::smf_header_at;
use crate::smf::smf_magic;
use crate::smf::smf_model;
use crate::smf::tile_info_at;
use crate::smf::assemble;
use crate::smf::half_map_len;
use crate::smf::height_map_len;
use crate::smf::tile_index_len;
use crate::smf::ExtraHeadersView;
use crate::smf::FeaturesView;
use crate::smf::SMFHeader;
use crate::smf::SMFView;
use crate::smf::TileInfoView;
use crate::smt::smt_header_at;
use crate::smt::smt_magic;
use crate::smt::smt_model;
use crate::smt::tile_at;
use crate::smt::SMTView;
use crate::wire::cstr_at;
use crate::wire::in_bounds;
use crate::wire::le_u16s;
use crate::wire::le_i32;
use crate::wire::le_u32;
use crate::wire::le_u32s;
use crate::wire::lemma_nul_pos_is_first_zero;
use crate::wire::nul_pos;
use crate::wire::starts_with;
use vstd::math::max;
use vstd::prelude::*;

verus! {

/// `short` is what a part of a cut stream decodes to and `full` what the
/// same part of the whole stream decodes to: the same, or `Truncated`.
pub open spec fn cut_read<T>(short: Result<T, FormatError>, full: Result<T, FormatError>) -> bool {
    short == full || short == Err::<T, FormatError>(FormatError::Truncated)
}

/// As `cut_read`, for a part that is sought by its offset: the cut stream
/// may also end before the offset.
pub open spec fn cut_section<T>(
    short: Result<T, FormatError>,
    full: Result<T, FormatError>,
) -> bool {
    cut_read(short, full) || short == Err::<T, FormatError>(FormatError::SeekOutOfRange)
}

/// A terminator that the cut stream still holds is the one that the whole
/// stream holds.
pub proof fn lemma_cut_nul_pos(s: Seq<u8>, cut: int, at: int)
    requires
        0 <= at <= cut <= s.len(),
    ensures
        nul_pos(s.subrange(0, cut), at) < cut ==> nul_pos(s, at) == nul_pos(s.subrange(0, cut), at),
    decreases cut - at,
{
    if at < cut && s[at] != 0 {
        lemma_cut_nul_pos(s, cut, at + 1);
    }
}

/// A string that the cut stream still holds with its terminator is the
/// string of the whole stream.
pub proof fn lemma_cut_cstr(s: Seq<u8>, cut: int, at: int)
    requires
        0 <= cut <= s.len(),
    ensures
        cstr_at(s.subrange(0, cut), at).is_none() || cstr_at(s.subrange(0, cut), at) == cstr_at(
            s,
            at,
        ),
{
    let p = s.subrange(0, cut);
    if 0 <= at <= cut && nul_pos(p, at) < cut {
        lemma_cut_nul_pos(s, cut, at);
        lemma_nul_pos_is_first_zero(p, at);
        assert(p.subrange(at, nul_pos(p, at)) =~= s.subrange(at, nul_pos(s, at)));
    }
}

/// Extension records of a cut stream decode as those of the whole stream,
/// or are `Truncated`.
pub proof fn lemma_cut_extra_headers(s: Seq<u8>, cut: int, at: int, n: nat)
    requires
        0 <= cut <= s.len(),
    ensures
        cut_read(extra_headers_at(s.subrange(0, cut), at, n), extra_headers_at(s, at, n)),
    decreases n,
{
    let p = s.subrange(0, cut);
    if n > 0 {
        if let Ok((first, next)) = extra_header_at(p, at) {
            assert(first.data =~= extra_header_at(s, at)->Ok_0.0.data);
            lemma_cut_extra_headers(s, cut, next, (n - 1) as nat);
        }
    }
}

/// Archive descriptors of a cut stream decode as those of the whole stream,
/// or are `Truncated`.
pub proof fn lemma_cut_file_infos(s: Seq<u8>, cut: int, at: int, n: nat)
    requires
        0 <= cut <= s.len(),
    ensures
        cut_read(file_infos_at(s.subrange(0, cut), at, n), file_infos_at(s, at, n)),
    decreases n,
{
    let p = s.subrange(0, cut);
    if n > 0 {
        lemma_cut_cstr(s, cut, at + 4);
        if let Ok((first, next)) = file_info_at(p, at) {
            lemma_cut_file_infos(s, cut, next, (n - 1) as nat);
        }
    }
}

/// Names of a cut stream decode as those of the whole stream, or are
/// `Truncated`.
pub proof fn lemma_cut_names(s: Seq<u8>, cut: int, at: int, n: nat)
    requires
        0 <= cut <= s.len(),
    ensures
        cut_read(names_at(s.subrange(0, cut), at, n), names_at(s, at, n)),
    decreases n,
{
    let p = s.subrange(0, cut);
    if n > 0 {
        lemma_cut_cstr(s, cut, at);
        if let Some((first, next)) = cstr_at(p, at) {
            lemma_cut_names(s, cut, next, (n - 1) as nat);
        }
    }
}

/// A section of bytes of a cut stream decodes as that of the whole stream,
/// or fails as a cut section may; it is not `SeekOutOfRange` where it starts
/// inside what is left.
pub proof fn lemma_cut_byte_section(s: Seq<u8>, cut: int, ptr: u32, count: int)
    requires
        0 <= cut <= s.len(),
    ensures
        cut_section(byte_section(s.subrange(0, cut), ptr, count), byte_section(s, ptr, count)),
        ptr <= cut ==> cut_read(
            byte_section(s.subrange(0, cut), ptr, count),
            byte_section(s, ptr, count),
        ),
{
    let p = s.subrange(0, cut);
    if in_bounds(p, ptr as int, count) {
        assert(p.subrange(ptr as int, ptr + count) =~= s.subrange(ptr as int, ptr + count));
    }
}

/// The height map of a cut stream decodes as that of the whole stream, or
/// fails as a cut section may.
pub proof fn lemma_cut_height_map(s: Seq<u8>, cut: int, ptr: u32, width: u32, length: u32)
    requires
        0 <= cut <= s.len(),
    ensures
        cut_section(
            height_map_at(s.subrange(0, cut), ptr, width, length),
            height_map_at(s, ptr, width, length),
        ),
        ptr <= cut ==> cut_read(
            height_map_at(s.subrange(0, cut), ptr, width, length),
            height_map_at(s, ptr, width, length),
        ),
{
    let p = s.subrange(0, cut);
    let n = (width + 1) * (length + 1);
    if in_bounds(p, ptr as int, 2 * n) {
        assert(le_u16s(p, ptr as int, n as nat) =~= le_u16s(s, ptr as int, n as nat));
    }
}

/// The tile section of a cut stream decodes as that of the whole stream, or
/// fails as a cut section may.
pub proof fn lemma_cut_tile_info(s: Seq<u8>, cut: int, ptr: u32, width: u32, length: u32)
    requires
        0 <= cut <= s.len(),
    ensures
        cut_section(
            tile_info_at(s.subrange(0, cut), ptr, width, length),
            tile_info_at(s, ptr, width, length),
        ),
        ptr <= cut ==> cut_read(
            tile_info_at(s.subrange(0, cut), ptr, width, length),
            tile_info_at(s, ptr, width, length),
        ),
{
    let p = s.subrange(0, cut);
    let n = (width / 4) * (length / 4);
    if in_bounds(p, ptr as int, 8) {
        let files = le_u32(p, ptr as int) as nat;
        lemma_cut_file_infos(s, cut, ptr + 8, files);
        if let Ok((infos, at)) = file_infos_at(p, ptr + 8, files) {
            if in_bounds(p, at, 4 * n) {
                assert(le_u32s(p, at, n as nat) =~= le_u32s(s, at, n as nat));
            }
        }
    }
}

/// The feature section of a cut stream decodes as that of the whole stream,
/// or fails as a cut section may.
pub proof fn lemma_cut_features(s: Seq<u8>, cut: int, ptr: u32)
    requires
        0 <= cut <= s.len(),
    ensures
        cut_section(features_at(s.subrange(0, cut), ptr), features_at(s, ptr)),
        ptr <= cut ==> cut_read(features_at(s.subrange(0, cut), ptr), features_at(s, ptr)),
{
    let p = s.subrange(0, cut);
    if in_bounds(p, ptr as int, 8) && le_i32(p, ptr as int) >= 0 {
        lemma_cut_names(s, cut, ptr + 8, le_i32(p, ptr as int) as nat);
        if let Ok((header, at)) = features_header_at(p, ptr as int) {
            if header.num_feature_types >= 0 && in_bounds(p, at, 24 * header.num_feature_types) {
                assert(features_at(p, ptr)->Ok_0.features =~= features_at(s, ptr)->Ok_0.features);
            }
        }
    }
}

/// Parts that decode as those of the whole stream do, or fail as the parts
/// of a cut stream may, make up the map of the whole stream or fail in one
/// of those ways.
proof fn lemma_cut_assemble(
    header: SMFHeader,
    extra: Result<(Seq<ExtraHeadersView>, int), FormatError>,
    heights: Result<Seq<u16>, FormatError>,
    types: Result<Seq<u8>, FormatError>,
    mini: Result<Seq<u8>, FormatError>,
    tiles: Result<TileInfoView, FormatError>,
    metal: Result<Seq<u8>, FormatError>,
    features: Result<FeaturesView, FormatError>,
    full_extra: Result<(Seq<ExtraHeadersView>, int), FormatError>,
    full_heights: Result<Seq<u16>, FormatError>,
    full_types: Result<Seq<u8>, FormatError>,
    full_mini: Result<Seq<u8>, FormatError>,
    full_tiles: Result<TileInfoView, FormatError>,
    full_metal: Result<Seq<u8>, FormatError>,
    full_features: Result<FeaturesView, FormatError>,
)
    requires
        cut_read(extra, full_extra),
        cut_section(heights, full_heights),
        cut_section(types, full_types),
        cut_section(mini, full_mini),
        cut_section(tiles, full_tiles),
        cut_section(metal, full_metal),
        cut_section(features, full_features),
    ensures
        cut_section(
            assemble(header, extra, heights, types, mini, tiles, metal, features),
            assemble(
                header,
                full_extra,
                full_heights,
                full_types,
                full_mini,
                full_tiles,
                full_metal,
                full_features,
            ),
        ),
        cut_read(heights, full_heights) && cut_read(types, full_types) && cut_read(mini, full_mini)
            && cut_read(tiles, full_tiles) && cut_read(metal, full_metal) && cut_read(
            features,
            full_features,
        ) ==> cut_read(
            assemble(header, extra, heights, types, mini, tiles, metal, features),
            assemble(
                header,
                full_extra,
                full_heights,
                full_types,
                full_mini,
                full_tiles,
                full_metal,
                full_features,
            ),
        ),
{
}

/// What lies behind the header of a cut stream makes up the map of the
/// whole stream, or fails as a cut stream may.
pub proof fn lemma_cut_body(s: Seq<u8>, cut: int, h: SMFHeader)
    requires
        0 <= cut <= s.len(),
    ensures
        cut_section(smf_body(s.subrange(0, cut), h), smf_body(s, h)),
        h.height_map_ptr <= cut && h.type_map_ptr <= cut && h.minimap_ptr <= cut && h.tiles_ptr
            <= cut && h.metal_map_ptr <= cut && h.feature_ptr <= cut ==> cut_read(
            smf_body(s.subrange(0, cut), h),
            smf_body(s, h),
        ),
{
    let p = s.subrange(0, cut);
    let half = half_map_len(h.width, h.length);
    lemma_cut_extra_headers(s, cut, 80, h.extra_header_count as nat);
    lemma_cut_height_map(s, cut, h.height_map_ptr, h.width, h.length);
    lemma_cut_byte_section(s, cut, h.type_map_ptr, half);
    lemma_cut_byte_section(s, cut, h.minimap_ptr, 699048);
    lemma_cut_tile_info(s, cut, h.tiles_ptr, h.width, h.length);
    lemma_cut_byte_section(s, cut, h.metal_map_ptr, half);
    lemma_cut_features(s, cut, h.feature_ptr);
    lemma_cut_assemble(
        h,
        extra_headers_at(p, 80, h.extra_header_count as nat),
        height_map_at(p, h.height_map_ptr, h.width, h.length),
        byte_section(p, h.type_map_ptr, half),
        byte_section(p, h.minimap_ptr, 699048),
        tile_info_at(p, h.tiles_ptr, h.width, h.length),
        byte_section(p, h.metal_map_ptr, half),
        features_at(p, h.feature_ptr),
        extra_headers_at(s, 80, h.extra_header_count as nat),
        height_map_at(s, h.height_map_ptr, h.width, h.length),
        byte_section(s, h.type_map_ptr, half),
        byte_section(s, h.minimap_ptr, 699048),
        tile_info_at(s, h.tiles_ptr, h.width, h.length),
        byte_section(s, h.metal_map_ptr, half),
        features_at(s, h.feature_ptr),
    );
}

/// A cut behind the signature leaves the signature as it is.
pub proof fn lemma_cut_magic(s: Seq<u8>, cut: int, magic: Seq<u8>)
    requires
        magic.len() <= cut <= s.len(),
    ensures
        starts_with(s.subrange(0, cut), magic) == starts_with(s, magic),
{
}

/// A cut behind the header of a map container leaves the header as it is.
pub proof fn lemma_cut_smf_header(s: Seq<u8>, cut: int)
    requires
        80 <= cut <= s.len(),
    ensures
        smf_header_at(s.subrange(0, cut)) == smf_header_at(s),
{
}

/// Behind the signature and the header, a map container is what its body
/// makes up; so is what is left of it after a cut behind the header.
pub proof fn lemma_cut_behind_header(s: Seq<u8>, cut: int)
    requires
        80 <= cut <= s.len(),
        starts_with(s, smf_magic()),
    ensures
        smf_model(s) == smf_body(s, smf_header_at(s)),
        smf_model(s.subrange(0, cut)) == smf_body(s.subrange(0, cut), smf_header_at(s)),
{
    lemma_cut_magic(s, cut, smf_magic());
    lemma_cut_smf_header(s, cut);
}

/// What is left of a stream after a cut inside its signature is `BadMagic`.
pub proof fn lemma_cut_in_signature(s: Seq<u8>, cut: int)
    requires
        0 <= cut <= s.len(),
        cut < 16,
    ensures
        smf_model(s.subrange(0, cut)) == Err::<SMFView, FormatError>(FormatError::BadMagic),
{
}

/// A stream without the signature is `BadMagic`, and so is what is left of
/// it after a cut.
pub proof fn lemma_cut_without_signature(s: Seq<u8>, cut: int)
    requires
        16 <= cut <= s.len(),
        !starts_with(s, smf_magic()),
    ensures
        smf_model(s) == Err::<SMFView, FormatError>(FormatError::BadMagic),
        smf_model(s.subrange(0, cut)) == Err::<SMFView, FormatError>(FormatError::BadMagic),
{
    lemma_cut_magic(s, cut, smf_magic());
}

/// What is left of a map container after a cut inside its header is
/// `Truncated`.
pub proof fn lemma_cut_in_header(s: Seq<u8>, cut: int)
    requires
        16 <= cut <= s.len(),
        cut < 80,
        starts_with(s, smf_magic()),
    ensures
        smf_model(s.subrange(0, cut)) == Err::<SMFView, FormatError>(FormatError::Truncated),
{
    lemma_cut_magic(s, cut, smf_magic());
}

/// Cutting a map container short never gives another map. The first `cut`
/// bytes of a stream are `BadMagic` where the signature is cut. Otherwise
/// they decode as the whole stream does, or they are `Truncated`, or
/// `SeekOutOfRange` where the cut lies before a section that the header
/// points to; where all six sections start inside what is left, they decode
/// as the whole stream does or are `Truncated`. A cut inside the header is
/// `Truncated`.
pub proof fn lemma_smf_cut_short(s: Seq<u8>, cut: int)
    requires
        0 <= cut <= s.len(),
    ensures
        cut < 16 ==> smf_model(s.subrange(0, cut)) == Err::<SMFView, FormatError>(
            FormatError::BadMagic,
        ),
        16 <= cut ==> cut_section(smf_model(s.subrange(0, cut)), smf_model(s)),
        16 <= cut < 80 && starts_with(s, smf_magic()) ==> smf_model(s.subrange(0, cut)) == Err::<
            SMFView,
            FormatError,
        >(FormatError::Truncated),
        80 <= cut && smf_header_at(s).height_map_ptr <= cut && smf_header_at(s).type_map_ptr <= cut
            && smf_header_at(s).minimap_ptr <= cut && smf_header_at(s).tiles_ptr <= cut
            && smf_header_at(s).metal_map_ptr <= cut && smf_header_at(s).feature_ptr <= cut
            ==> cut_read(smf_model(s.subrange(0, cut)), smf_model(s)),
{
    if cut < 16 {
        lemma_cut_in_signature(s, cut);
    } else if !starts_with(s, smf_magic()) {
        lemma_cut_without_signature(s, cut);
    } else if cut < 80 {
        lemma_cut_in_header(s, cut);
    } else {
        lemma_cut_behind_header(s, cut);
        lemma_cut_body(s, cut, smf_header_at(s));
    }
}

/// The offset behind the last byte that decoding reads of a stream that
/// decodes with the header `h`: the largest of the ends of the extension
/// records and of the six sections.
pub open spec fn body_extent(s: Seq<u8>, h: SMFHeader) -> int {
    let extra_end = extra_headers_at(s, 80, h.extra_header_count as nat)->Ok_0.1;
    let height_end = h.height_map_ptr + 2 * height_map_len(h.width, h.length);
    let type_end = h.type_map_ptr + half_map_len(h.width, h.length);
    let mini_end = h.minimap_ptr + 699048;
    let tiles_end = tile_info_end(s, h.tiles_ptr, h.width, h.length);
    let metal_end = h.metal_map_ptr + half_map_len(h.width, h.length);
    let features_end = features_end(s, h.feature_ptr);
    max(
        extra_end,
        max(height_end, max(type_end, max(mini_end, max(tiles_end, max(metal_end, features_end))))),
    )
}

/// The offset behind the last byte that decoding reads of a stream that
/// decodes.
pub open spec fn smf_extent(s: Seq<u8>) -> int {
    body_extent(s, smf_header_at(s))
}

/// The offset behind the index table of a tile section that decodes.
pub open spec fn tile_info_end(s: Seq<u8>, ptr: u32, width: u32, length: u32) -> int {
    file_infos_at(s, ptr + 8, le_u32(s, ptr as int) as nat)->Ok_0.1 + 4 * tile_index_len(
        width,
        length,
    )
}

/// The offset behind the last record of a feature section that decodes.
pub open spec fn features_end(s: Seq<u8>, ptr: u32) -> int {
    features_header_at(s, ptr as int)->Ok_0.1 + 24 * le_i32(s, ptr + 4)
}

/// A terminator that lies in what is left of a cut stream is found there.
pub proof fn lemma_kept_nul_pos(s: Seq<u8>, cut: int, at: int)
    requires
        0 <= at <= cut <= s.len(),
        nul_pos(s, at) < cut,
    ensures
        nul_pos(s.subrange(0, cut), at) == nul_pos(s, at),
    decreases cut - at,
{
    lemma_nul_pos_is_first_zero(s, at);
    if s[at] != 0 {
        lemma_kept_nul_pos(s, cut, at + 1);
    }
}

/// A string that ends in what is left of a cut stream is read as before.
pub proof fn lemma_kept_cstr(s: Seq<u8>, cut: int, at: int)
    requires
        0 <= cut <= s.len(),
        cstr_at(s, at) is Some,
        cstr_at(s, at)->Some_0.1 <= cut,
    ensures
        cstr_at(s.subrange(0, cut), at) == cstr_at(s, at),
{
    let p = s.subrange(0, cut);
    lemma_nul_pos_is_first_zero(s, at);
    lemma_kept_nul_pos(s, cut, at);
    assert(p.subrange(at, nul_pos(p, at)) =~= s.subrange(at, nul_pos(s, at)));
}

/// Extension records that decode lie inside the stream.
pub proof fn lemma_extra_headers_inside(s: Seq<u8>, at: int, n: nat)
    requires
        0 <= at <= s.len(),
    ensures
        extra_headers_at(s, at, n) is Ok ==> at <= extra_headers_at(s, at, n)->Ok_0.1 <= s.len(),
    decreases n,
{
    if n > 0 {
        if let Ok((first, next)) = extra_header_at(s, at) {
            lemma_extra_headers_inside(s, next, (n - 1) as nat);
        }
    }
}

/// Archive descriptors that decode lie inside the stream.
pub proof fn lemma_file_infos_inside(s: Seq<u8>, at: int, n: nat)
    requires
        0 <= at <= s.len(),
    ensures
        file_infos_at(s, at, n) is Ok ==> at <= file_infos_at(s, at, n)->Ok_0.1 <= s.len(),
    decreases n,
{
    if n > 0 {
        if let Ok((first, next)) = file_info_at(s, at) {
            lemma_nul_pos_is_first_zero(s, at + 4);
            lemma_file_infos_inside(s, next, (n - 1) as nat);
        }
    }
}

/// Names that decode lie inside the stream.
pub proof fn lemma_names_inside(s: Seq<u8>, at: int, n: nat)
    requires
        0 <= at <= s.len(),
    ensures
        names_at(s, at, n) is Ok ==> at <= names_at(s, at, n)->Ok_0.1 <= s.len(),
    decreases n,
{
    if n > 0 {
        if let Some((first, next)) = cstr_at(s, at) {
            lemma_nul_pos_is_first_zero(s, at);
            lemma_names_inside(s, next, (n - 1) as nat);
        }
    }
}

/// Extension records that end in what is left of a cut stream decode as
/// before.
pub proof fn lemma_kept_extra_headers(s: Seq<u8>, cut: int, at: int, n: nat)
    requires
        0 <= cut <= s.len(),
        extra_headers_at(s, at, n) is Ok,
        extra_headers_at(s, at, n)->Ok_0.1 <= cut,
    ensures
        extra_headers_at(s.subrange(0, cut), at, n) == extra_headers_at(s, at, n),
    decreases n,
{
    let p = s.subrange(0, cut);
    if n > 0 {
        let next = extra_header_at(s, at)->Ok_0.1;
        lemma_extra_headers_inside(s, next, (n - 1) as nat);
        assert(extra_header_at(p, at)->Ok_0.0.data =~= extra_header_at(s, at)->Ok_0.0.data);
        lemma_kept_extra_headers(s, cut, next, (n - 1) as nat);
    }
}

/// Archive descriptors that end in what is left of a cut stream decode as
/// before.
pub proof fn lemma_kept_file_infos(s: Seq<u8>, cut: int, at: int, n: nat)
    requires
        0 <= cut <= s.len(),
        file_infos_at(s, at, n) is Ok,
        file_infos_at(s, at, n)->Ok_0.1 <= cut,
    ensures
        file_infos_at(s.subrange(0, cut), at, n) == file_infos_at(s, at, n),
    decreases n,
{
    if n > 0 {
        let next = file_info_at(s, at)->Ok_0.1;
        lemma_nul_pos_is_first_zero(s, at + 4);
        lemma_file_infos_inside(s, next, (n - 1) as nat);
        lemma_kept_cstr(s, cut, at + 4);
        lemma_kept_file_infos(s, cut, next, (n - 1) as nat);
    }
}

/// Names that end in what is left of a cut stream decode as before.
pub proof fn lemma_kept_names(s: Seq<u8>, cut: int, at: int, n: nat)
    requires
        0 <= cut <= s.len(),
        names_at(s, at, n) is Ok,
        names_at(s, at, n)->Ok_0.1 <= cut,
    ensures
        names_at(s.subrange(0, cut), at, n) == names_at(s, at, n),
    decreases n,
{
    if n > 0 {
        let next = cstr_at(s, at)->Some_0.1;
        lemma_nul_pos_is_first_zero(s, at);
        lemma_names_inside(s, next, (n - 1) as nat);
        lemma_kept_cstr(s, cut, at);
        lemma_kept_names(s, cut, next, (n - 1) as nat);
    }
}

/// A tile section that decodes lies before its end; cut behind its end it
/// decodes as before, cut before its end it does not decode.
pub proof fn lemma_tile_info_cut_exact(s: Seq<u8>, cut: int, ptr: u32, width: u32, length: u32)
    requires
        0 <= cut <= s.len(),
        tile_info_at(s, ptr, width, length) is Ok,
    ensures
        tile_info_end(s, ptr, width, length) <= s.len(),
        tile_info_end(s, ptr, width, length) <= cut ==> tile_info_at(
            s.subrange(0, cut),
            ptr,
            width,
            length,
        ) == tile_info_at(s, ptr, width, length),
        cut < tile_info_end(s, ptr, width, length) ==> tile_info_at(
            s.subrange(0, cut),
            ptr,
            width,
            length,
        ) is Err,
{
    let p = s.subrange(0, cut);
    let files = le_u32(s, ptr as int) as nat;
    let n = tile_index_len(width, length);
    assert(0 <= n) by (nonlinear_arith)
        requires
            n == (width / 4) * (length / 4),
            0 <= width / 4,
            0 <= length / 4,
    ;
    lemma_file_infos_inside(s, ptr + 8, files);
    let at = file_infos_at(s, ptr + 8, files)->Ok_0.1;
    if at + 4 * n <= cut {
        lemma_kept_file_infos(s, cut, ptr + 8, files);
        assert(le_u32s(p, at, n as nat) =~= le_u32s(s, at, n as nat));
    } else {
        lemma_cut_tile_info(s, cut, ptr, width, length);
        if tile_info_at(p, ptr, width, length) is Ok {
            lemma_cut_file_infos(s, cut, ptr + 8, files);
        }
    }
}

/// A feature section that decodes lies before its end; cut behind its end
/// it decodes as before, cut before its end it does not decode.
pub proof fn lemma_features_cut_exact(s: Seq<u8>, cut: int, ptr: u32)
    requires
        0 <= cut <= s.len(),
        features_at(s, ptr) is Ok,
    ensures
        features_end(s, ptr) <= s.len(),
        features_end(s, ptr) <= cut ==> features_at(s.subrange(0, cut), ptr) == features_at(s, ptr),
        cut < features_end(s, ptr) ==> features_at(s.subrange(0, cut), ptr) is Err,
{
    let p = s.subrange(0, cut);
    let names = le_i32(s, ptr as int) as nat;
    let n = le_i32(s, ptr + 4);
    lemma_names_inside(s, ptr + 8, names);
    let at = names_at(s, ptr + 8, names)->Ok_0.1;
    if at + 24 * n <= cut {
        lemma_kept_names(s, cut, ptr + 8, names);
        assert(features_at(p, ptr)->Ok_0.features =~= features_at(s, ptr)->Ok_0.features);
    } else {
        lemma_cut_features(s, cut, ptr);
        if features_at(p, ptr) is Ok {
            lemma_cut_names(s, cut, ptr + 8, names);
        }
    }
}

/// What lies behind the header of a stream that decodes ends inside the
/// stream; cut behind that end it decodes as before, cut before that end it
/// does not decode.
pub proof fn lemma_body_cut_exact(s: Seq<u8>, cut: int, h: SMFHeader)
    requires
        80 <= cut <= s.len(),
        smf_body(s, h) is Ok,
    ensures
        80 <= body_extent(s, h) <= s.len(),
        body_extent(s, h) <= cut ==> smf_body(s.subrange(0, cut), h) == smf_body(s, h),
        cut < body_extent(s, h) ==> smf_body(s.subrange(0, cut), h) is Err,
{
    let p = s.subrange(0, cut);
    let extras = h.extra_header_count as nat;
    let half = half_map_len(h.width, h.length);
    let heights = height_map_len(h.width, h.length);
    assert(0 <= half) by (nonlinear_arith)
        requires
            half == (h.width / 2) * (h.length / 2),
            0 <= h.width / 2,
            0 <= h.length / 2,
    ;
    assert(0 <= heights) by (nonlinear_arith)
        requires
            heights == (h.width + 1) * (h.length + 1),
            0 <= h.width,
            0 <= h.length,
    ;
    lemma_extra_headers_inside(s, 80, extras);
    lemma_extra_headers_inside(p, 80, extras);
    lemma_cut_extra_headers(s, cut, 80, extras);
    if extra_headers_at(s, 80, extras)->Ok_0.1 <= cut {
        lemma_kept_extra_headers(s, cut, 80, extras);
    }
    lemma_cut_height_map(s, cut, h.height_map_ptr, h.width, h.length);
    lemma_cut_byte_section(s, cut, h.type_map_ptr, half);
    lemma_cut_byte_section(s, cut, h.minimap_ptr, 699048);
    lemma_tile_info_cut_exact(s, cut, h.tiles_ptr, h.width, h.length);
    lemma_cut_byte_section(s, cut, h.metal_map_ptr, half);
    lemma_features_cut_exact(s, cut, h.feature_ptr);
}

/// A map container that decodes, cut short: behind the last byte that
/// decoding reads, the cut changes nothing; before it, the rest is no map
/// but `BadMagic` where the signature is cut, and `Truncated` or
/// `SeekOutOfRange` elsewhere, `Truncated` where all six sections start
/// inside what is left.
pub proof fn lemma_smf_cut_exact(s: Seq<u8>, cut: int)
    requires
        smf_model(s) is Ok,
        0 <= cut <= s.len(),
    ensures
        80 <= smf_extent(s) <= s.len(),
        smf_extent(s) <= cut ==> smf_model(s.subrange(0, cut)) == smf_model(s),
        cut < 16 ==> smf_model(s.subrange(0, cut)) == Err::<SMFView, FormatError>(
            FormatError::BadMagic,
        ),
        16 <= cut < smf_extent(s) ==> smf_model(s.subrange(0, cut)) == Err::<SMFView, FormatError>(
            FormatError::Truncated,
        ) || smf_model(s.subrange(0, cut)) == Err::<SMFView, FormatError>(
            FormatError::SeekOutOfRange,
        ),
        16 <= cut < smf_extent(s) && smf_header_at(s).height_map_ptr <= cut && smf_header_at(
            s,
        ).type_map_ptr <= cut && smf_header_at(s).minimap_ptr <= cut && smf_header_at(s).tiles_ptr
            <= cut && smf_header_at(s).metal_map_ptr <= cut && smf_header_at(s).feature_ptr <= cut
            ==> smf_model(s.subrange(0, cut)) == Err::<SMFView, FormatError>(
            FormatError::Truncated,
        ),
{
    let h = smf_header_at(s);
    lemma_smf_cut_short(s, cut);
    lemma_cut_behind_header(s, s.len() as int);
    lemma_body_cut_exact(s, s.len() as int, h);
    if cut >= 80 {
        lemma_cut_behind_header(s, cut);
        lemma_body_cut_exact(s, cut, h);
    }
}

/// Cutting an archive short never gives another archive: the first `cut`
/// bytes of a stream that decodes are `BadMagic` where the signature is cut,
/// `Truncated` where the header or a tile that the header announces is cut,
/// and the same archive where only bytes behind the last tile are lost.
pub proof fn lemma_smt_cut_short(bytes: Seq<u8>, cut: int)
    requires
        smt_model(bytes) is Ok,
        0 <= cut <= bytes.len(),
    ensures
        cut < 16 ==> smt_model(bytes.subrange(0, cut)) == Err::<SMTView, FormatError>(
            FormatError::BadMagic,
        ),
        16 <= cut < 32 + 680 * smt_model(bytes)->Ok_0.header.num_tiles ==> smt_model(
            bytes.subrange(0, cut),
        ) == Err::<SMTView, FormatError>(FormatError::Truncated),
        cut >= 32 + 680 * smt_model(bytes)->Ok_0.header.num_tiles ==> smt_model(
            bytes.subrange(0, cut),
        ) == smt_model(bytes),
{
    let prefix = bytes.subrange(0, cut);
    if cut >= 16 {
        lemma_cut_magic(bytes, cut, smt_magic());
    }
    if cut >= 32 {
        assert(smt_header_at(prefix) == smt_header_at(bytes));
        let n = smt_header_at(bytes).num_tiles;
        if cut >= 32 + 680 * n {
            let cut_tiles = smt_model(prefix)->Ok_0.tiles;
            let all_tiles = smt_model(bytes)->Ok_0.tiles;
            assert forall|i: int| 0 <= i < n implies #[trigger] cut_tiles[i] == all_tiles[i] by {
                let at = 32 + 680 * i;
                assert(prefix.subrange(at, at + 512) =~= bytes.subrange(at, at + 512));
                assert(prefix.subrange(at + 512, at + 640) =~= bytes.subrange(at + 512, at + 640));
                assert(prefix.subrange(at + 640, at + 672) =~= bytes.subrange(at + 640, at + 672));
                assert(prefix.subrange(at + 672, at + 680) =~= bytes.subrange(at + 672, at + 680));
            }
            assert(cut_tiles =~= all_tiles);
        }
    }
}

} // verus!
