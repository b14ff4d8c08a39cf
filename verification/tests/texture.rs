use spring_cartographer_rs::error::FormatError;
use spring_cartographer_rs::extract_texture_32;
use spring_cartographer_rs::smf::Features;
use spring_cartographer_rs::smf::FeaturesHeader;
use spring_cartographer_rs::smf::HeightMap;
use spring_cartographer_rs::smf::MetalMap;
use spring_cartographer_rs::smf::MiniMap;
use spring_cartographer_rs::smf::SMFHeader;
use spring_cartographer_rs::smf::TileIndex;
use spring_cartographer_rs::smf::TileIndexHeader;
use spring_cartographer_rs::smf::TileInfo;
use spring_cartographer_rs::smf::TypeMap;
use spring_cartographer_rs::smf::SMF;
use spring_cartographer_rs::smt::SMTHeader;
use spring_cartographer_rs::smt::Tile;
use spring_cartographer_rs::smt::SMT;
use spring_cartographer_rs::texture::blit_tile;
use spring_cartographer_rs::texture::texture_size;

fn map(width: u32, length: u32, tile_index: Vec<u32>) -> SMF {
    SMF {
        header: SMFHeader {
            version: 1,
            id: 0,
            width,
            length,
            square_size: 8,
            texel_per_square: 8,
            tile_size: 32,
            min_height: 0,
            max_height: 0,
            height_map_ptr: 0,
            type_map_ptr: 0,
            tiles_ptr: 0,
            minimap_ptr: 0,
            metal_map_ptr: 0,
            feature_ptr: 0,
            extra_header_count: 0,
        },
        extra_headers: vec![],
        height_map: HeightMap(vec![]),
        type_map: TypeMap(vec![]),
        mini_map: MiniMap(vec![]),
        smt_file_info: TileInfo {
            header: TileIndexHeader {
                number_of_tile_files: 0,
                total_number_of_tiles_in_all_files: 0,
            },
            smt_file_info: vec![],
            tile_index: TileIndex(tile_index),
        },
        metal_map: MetalMap(vec![]),
        features: Features {
            header: FeaturesHeader { num_features: 0, num_feature_types: 0, feature_names: vec![] },
            features: vec![],
        },
    }
}

fn tile(mip_map32: Vec<u8>) -> Tile {
    Tile { mip_map32, mip_map16: vec![0; 128], mip_map8: vec![0; 32], mip_map4: vec![0; 8] }
}

fn archive(tiles: Vec<Tile>) -> SMT {
    SMT {
        header: SMTHeader {
            version: 1,
            num_tiles: tiles.len() as u32,
            tile_size: 32,
            compression_type: 1,
        },
        tiles,
    }
}

/// A tile of one colour: in each block both end points and the index of
/// the first for every pixel.
fn plain(colour: u16) -> Vec<u8> {
    let mut data: Vec<u8> = Vec::new();
    let [lo, hi] = colour.to_le_bytes();
    for _ in 0..64 {
        data.extend_from_slice(&[lo, hi, 0x1f, 0x00, 0, 0, 0, 0]);
    }
    data
}

/// A tile in which no two blocks are alike.
fn varied(seed: u32) -> Vec<u8> {
    let mut state: u32 = seed;
    let mut data: Vec<u8> = Vec::new();
    for _ in 0..512 {
        state = state.wrapping_mul(1664525).wrapping_add(1013904223);
        data.push((state >> 24) as u8);
    }
    data
}

fn decoded(mip_map32: &[u8]) -> Vec<u8> {
    let mut pixels = vec![0u8; 32 * 32 * 4];
    texpresso::Format::Bc1.decompress(mip_map32, 32, 32, &mut pixels);
    pixels
}

/// The cell at (`row`, `col`) of a raster of `columns` tiles a row, as a
/// tile of its own.
fn cell(data: &[u8], columns: usize, row: usize, col: usize) -> Vec<u8> {
    let mut out: Vec<u8> = Vec::new();
    for y in 0..32usize {
        let start = ((row * 32 + y) * columns * 32 + col * 32) * 4;
        out.extend_from_slice(&data[start..start + 128]);
    }
    out
}

#[test]
fn both() {
    let smf = map(8, 12, vec![0, 1, 2, 3, 4, 5]);
    let smt = archive((0..6u32).map(|k| tile(varied(k + 1))).collect());

    let data = extract_texture_32(&smf, &smt).unwrap();

    let width = smf.header.width / 4 * 32;
    let height = smf.header.length / 4 * 32;
    assert_eq!((width, height), (64, 96));
    assert_eq!(texture_size(&smf), (64, 96));
    assert_eq!(data.len(), (width * height * 4) as usize);
    for row in 0..3usize {
        for col in 0..2usize {
            assert_eq!(cell(&data, 2, row, col), decoded(&smt.tiles[row * 2 + col].mip_map32));
        }
    }
}

#[test]
fn one_tile_four_times() {
    let smf = map(8, 8, vec![0, 0, 0, 0]);
    let smt = archive(vec![tile(varied(42))]);
    let data = extract_texture_32(&smf, &smt).unwrap();
    assert_eq!(data.len(), 64 * 64 * 4);
    let first = cell(&data, 2, 0, 0);
    assert_eq!(first, decoded(&smt.tiles[0].mip_map32));
    assert_eq!(cell(&data, 2, 0, 1), first);
    assert_eq!(cell(&data, 2, 1, 0), first);
    assert_eq!(cell(&data, 2, 1, 1), first);
    assert!(first.iter().any(|b| *b != 0));
}

#[test]
fn plain_tiles_give_plain_cells() {
    let smf = map(8, 8, vec![0, 1, 1, 0]);
    let smt = archive(vec![tile(plain(0xf800)), tile(plain(0x07e0))]);
    let data = extract_texture_32(&smf, &smt).unwrap();
    for y in 0..64usize {
        for x in 0..64usize {
            let at = (y * 64 + x) * 4;
            let expected: [u8; 4] =
                if (y / 32 + x / 32) % 2 == 0 { [255, 0, 0, 255] } else { [0, 255, 0, 255] };
            assert_eq!(data[at..at + 4], expected, "pixel ({}, {})", x, y);
        }
    }
}

#[test]
fn the_index_table_runs_row_by_row() {
    let smf = map(12, 8, vec![5, 4, 3, 2, 1, 0]);
    let smt = archive((0..6u32).map(|k| tile(varied(100 + k))).collect());
    let data = extract_texture_32(&smf, &smt).unwrap();
    assert_eq!(data.len(), 96 * 64 * 4);
    for i in 0..6usize {
        let (row, col) = (i / 3, i % 3);
        assert_eq!(cell(&data, 3, row, col), decoded(&smt.tiles[5 - i].mip_map32));
    }
}

#[test]
fn every_pixel_lies_where_the_formula_says() {
    let columns = 3usize;
    let smf = map(12, 8, vec![0, 1, 2, 2, 0, 1]);
    let smt = archive((0..3u32).map(|k| tile(varied(7 * k + 3))).collect());
    let data = extract_texture_32(&smf, &smt).unwrap();
    let mut highest = 0usize;
    for row in 0..2usize {
        for col in 0..columns {
            let chosen = smf.smt_file_info.tile_index.0[row * columns + col] as usize;
            let pixels = decoded(&smt.tiles[chosen].mip_map32);
            for n in 0..1024usize {
                let i = (row * 32 + n / 32) * (columns * 32 * 4) + (col * 32 + n % 32) * 4;
                assert_eq!(data[i..i + 4], pixels[4 * n..4 * n + 4]);
                highest = highest.max(i);
            }
        }
    }
    assert_eq!(highest, data.len() - 4);
}

#[test]
fn output_length() {
    for (width, length) in [(0u32, 0u32), (4, 4), (4, 0), (0, 8), (8, 4), (4, 16), (20, 12)] {
        let cells = (width / 4) * (length / 4);
        let smf = map(width, length, vec![0; cells as usize]);
        let smt = archive(vec![tile(plain(0x001f))]);
        let data = extract_texture_32(&smf, &smt).unwrap();
        assert_eq!(data.len() as u32, (width / 4 * 32) * (length / 4 * 32) * 4);
    }
}

#[test]
fn size_in_pixels() {
    assert_eq!(texture_size(&map(0, 0, vec![])), (0, 0));
    assert_eq!(texture_size(&map(7, 9, vec![])), (32, 64));
    assert_eq!(texture_size(&map(1024, 512, vec![])), (8192, 4096));
    assert_eq!(texture_size(&map(u32::MAX, 4, vec![])), (0x3fff_ffff * 32, 32));
}

#[test]
fn longer_tile_data_is_refused() {
    let smf = map(4, 4, vec![0]);
    let mut long = plain(0xf800);
    long.push(0);
    assert_eq!(
        extract_texture_32(&smf, &archive(vec![tile(long)])).unwrap_err(),
        FormatError::InvalidDimensions
    );
    let mut short = plain(0xf800);
    short.pop();
    assert_eq!(
        extract_texture_32(&smf, &archive(vec![tile(short)])).unwrap_err(),
        FormatError::InvalidDimensions
    );
    let unused = archive(vec![tile(plain(0xf800)), tile(vec![])]);
    assert_eq!(extract_texture_32(&smf, &unused).unwrap_err(), FormatError::InvalidDimensions);
}

#[test]
fn tile_index_out_of_bounds() {
    let smt = archive(vec![tile(plain(0xf800)), tile(plain(0x001f))]);
    assert_eq!(
        extract_texture_32(&map(8, 8, vec![0, 1, 2, 0]), &smt).unwrap_err(),
        FormatError::TileIndexOutOfBounds
    );
    assert_eq!(
        extract_texture_32(&map(8, 8, vec![0, 1, 1, u32::MAX]), &smt).unwrap_err(),
        FormatError::TileIndexOutOfBounds
    );
    assert_eq!(
        extract_texture_32(&map(4, 4, vec![0]), &archive(vec![])).unwrap_err(),
        FormatError::TileIndexOutOfBounds
    );
    assert!(extract_texture_32(&map(8, 8, vec![0, 1, 1, 0]), &smt).is_ok());
}

#[test]
fn unsupported_compression() {
    let smf = map(4, 4, vec![0]);
    for compression_type in [0i32, 2, 3, -1, i32::MAX] {
        let mut smt = archive(vec![tile(plain(0xf800))]);
        smt.header.compression_type = compression_type;
        assert_eq!(
            extract_texture_32(&smf, &smt).unwrap_err(),
            FormatError::UnsupportedCompression
        );
    }
    let mut smt = archive(vec![]);
    smt.header.compression_type = 2;
    assert_eq!(
        extract_texture_32(&map(5, 4, vec![7]), &smt).unwrap_err(),
        FormatError::UnsupportedCompression
    );
}

#[test]
fn invalid_dimensions() {
    let smt = archive(vec![tile(plain(0xf800))]);
    for (width, length) in [(5u32, 4u32), (4, 6), (2, 2), (7, 9), (4, 1)] {
        let cells = (width / 4) * (length / 4);
        assert_eq!(
            extract_texture_32(&map(width, length, vec![0; cells as usize]), &smt).unwrap_err(),
            FormatError::InvalidDimensions
        );
    }
    assert_eq!(
        extract_texture_32(&map(8, 8, vec![0, 0, 0]), &smt).unwrap_err(),
        FormatError::InvalidDimensions
    );
    assert_eq!(
        extract_texture_32(&map(8, 8, vec![0, 0, 0, 0, 0]), &smt).unwrap_err(),
        FormatError::InvalidDimensions
    );
    assert_eq!(
        extract_texture_32(&map(0, 0, vec![0]), &smt).unwrap_err(),
        FormatError::InvalidDimensions
    );
    assert_eq!(
        extract_texture_32(&map(8, 8, vec![9, 9, 9]), &smt).unwrap_err(),
        FormatError::InvalidDimensions
    );
}

#[test]
fn tile_size_of_the_header_is_not_judged() {
    let smf = map(4, 4, vec![0]);
    let mut smt = archive(vec![tile(plain(0xf800))]);
    smt.header.tile_size = 16;
    smt.header.num_tiles = 9;
    assert_eq!(extract_texture_32(&smf, &smt).unwrap().len(), 4096);
}

#[test]
fn blit_places_one_tile() {
    let block: Vec<u8> = (0..4096usize).map(|k| (k % 251) as u8 + 1).collect();
    let mut data = vec![0u8; 2 * 3 * 4096];
    assert!(blit_tile(&mut data, &block, 2, 1, 1));
    // Pixel 33 of the tile: row 1 and column 1 inside the tile, row 33 and
    // column 33 of a raster whose rows are 256 bytes long.
    assert_eq!(data[33 * 256 + 33 * 4..33 * 256 + 33 * 4 + 4], block[33 * 4..33 * 4 + 4]);
    assert_eq!(33 * 256 + 33 * 4, 8580);
    assert_eq!(data[8580], block[132]);
    assert_eq!(data[32 * 256 + 128], block[0]);
    assert_eq!(data[63 * 256 + 255], block[4095]);
    for k in 0..data.len() {
        let (y, x) = (k / 256, k % 256);
        if (32..64).contains(&y) && x >= 128 {
            assert_eq!(data[k], block[(y - 32) * 128 + (x - 128)]);
        } else {
            assert_eq!(data[k], 0);
        }
    }
}

#[test]
fn blit_keeps_what_other_cells_hold() {
    let first: Vec<u8> = vec![1; 4096];
    let second: Vec<u8> = vec![2; 4096];
    let mut data = vec![9u8; 3 * 2 * 4096];
    assert!(blit_tile(&mut data, &first, 3, 0, 2));
    assert!(blit_tile(&mut data, &second, 3, 1, 0));
    assert!(blit_tile(&mut data, &second, 3, 0, 2));
    for k in 0..data.len() {
        let (y, x) = (k / 384, k % 384);
        let expected = if (y < 32 && x >= 256) || (y >= 32 && x < 128) { 2 } else { 9 };
        assert_eq!(data[k], expected);
    }
}

#[test]
fn blit_refuses_what_does_not_fit() {
    let block: Vec<u8> = vec![7; 4096];
    let mut data = vec![9u8; 2 * 2 * 4096];
    assert!(!blit_tile(&mut data, &block, 2, 2, 0));
    assert!(!blit_tile(&mut data, &block, 2, 0, 2));
    assert!(!blit_tile(&mut data, &block, 2, usize::MAX, 0));
    assert!(!blit_tile(&mut data, &block, 0, 0, 0));
    assert!(!blit_tile(&mut data, &block, 5, 0, 0));
    assert!(!blit_tile(&mut data, &block, usize::MAX, 0, 0));
    assert!(!blit_tile(&mut data, &block[..4095], 2, 0, 0));
    assert!(!blit_tile(&mut data, &[], 2, 0, 0));
    data.pop();
    assert!(!blit_tile(&mut data, &block, 2, 1, 1));
    assert!(data.iter().all(|b| *b == 9));
    assert!(blit_tile(&mut data, &block, 2, 0, 1));
    assert!(blit_tile(&mut data, &block, 1, 2, 0));
    assert!(!blit_tile(&mut data, &block, 1, 3, 0));
}

#[test]
fn decoded_archive_and_map_give_a_texture() {
    let mut archive_bytes: Vec<u8> = Vec::new();
    archive_bytes.extend_from_slice(b"spring tilefile\0");
    archive_bytes.extend_from_slice(&1i32.to_le_bytes());
    archive_bytes.extend_from_slice(&2u32.to_le_bytes());
    archive_bytes.extend_from_slice(&32u32.to_le_bytes());
    archive_bytes.extend_from_slice(&1i32.to_le_bytes());
    for colour in [0xf800u16, 0x001f] {
        archive_bytes.extend_from_slice(&plain(colour));
        archive_bytes.extend_from_slice(&[0u8; 168]);
    }
    let smt = SMT::read(&archive_bytes).unwrap();
    let data = extract_texture_32(&map(4, 8, vec![1, 0]), &smt).unwrap();
    assert_eq!(data.len(), 2 * 4096);
    assert_eq!(data[..4], [0, 0, 255, 255]);
    assert_eq!(data[4096..4100], [255, 0, 0, 255]);
    assert_eq!(data[8188..], [255, 0, 0, 255]);
}
