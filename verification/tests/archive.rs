use spring_cartographer_rs::error::FormatError;
use spring_cartographer_rs::smt::SMTHeader;
use spring_cartographer_rs::smt::Tile;
use spring_cartographer_rs::smt::SMT;

fn archive_bytes(num_tiles: u32, tiles_present: usize) -> Vec<u8> {
    let mut bytes: Vec<u8> = Vec::new();
    bytes.extend_from_slice(b"spring tilefile\0");
    bytes.extend_from_slice(&1i32.to_le_bytes());
    bytes.extend_from_slice(&num_tiles.to_le_bytes());
    bytes.extend_from_slice(&32u32.to_le_bytes());
    bytes.extend_from_slice(&1i32.to_le_bytes());
    for t in 0..tiles_present {
        for k in 0..680usize {
            bytes.push(((t * 7 + k) % 251) as u8);
        }
    }
    bytes
}

#[test]
fn smt() {
    let smt_raw = archive_bytes(3, 3);

    let smt = SMT::read(&smt_raw).unwrap();

    assert_eq!(
        smt.header,
        SMTHeader { version: 1, num_tiles: 3, tile_size: 32, compression_type: 1 }
    );
    assert_eq!(smt.tiles.len(), 3);
    for t in 0..3usize {
        let at = 32 + 680 * t;
        assert_eq!(smt.tiles[t].mip_map32[..], smt_raw[at..at + 512]);
        assert_eq!(smt.tiles[t].mip_map16[..], smt_raw[at + 512..at + 640]);
        assert_eq!(smt.tiles[t].mip_map8[..], smt_raw[at + 640..at + 672]);
        assert_eq!(smt.tiles[t].mip_map4[..], smt_raw[at + 672..at + 680]);
    }
}

#[test]
fn smt_header_fields_are_read_in_order() {
    let mut bytes: Vec<u8> = Vec::new();
    bytes.extend_from_slice(b"spring tilefile\0");
    bytes.extend_from_slice(&(-7i32).to_le_bytes());
    bytes.extend_from_slice(&0u32.to_le_bytes());
    bytes.extend_from_slice(&0x0102_0304u32.to_le_bytes());
    bytes.extend_from_slice(&i32::MIN.to_le_bytes());
    let smt = SMT::read(&bytes).unwrap();
    assert_eq!(
        smt.header,
        SMTHeader { version: -7, num_tiles: 0, tile_size: 0x0102_0304, compression_type: i32::MIN }
    );
    assert!(smt.tiles.is_empty());
    assert_eq!(SMTHeader::read(&bytes), Ok(smt.header));
    assert_eq!(SMTHeader::read(&bytes[..31]), Err(FormatError::Truncated));
}

#[test]
fn smt_does_not_judge_the_compression_type() {
    let mut bytes = archive_bytes(1, 1);
    bytes[28] = 3;
    assert_eq!(SMT::read(&bytes).unwrap().header.compression_type, 3);
}

#[test]
fn smt_ignores_bytes_behind_the_last_tile() {
    let mut bytes = archive_bytes(2, 2);
    let plain = format!("{:?}", SMT::read(&bytes).unwrap());
    bytes.extend_from_slice(&[9u8; 100]);
    assert_eq!(format!("{:?}", SMT::read(&bytes).unwrap()), plain);
}

#[test]
fn smt_with_a_missing_tile_is_truncated() {
    let mut bytes = archive_bytes(10, 9);
    assert_eq!(SMT::read(&bytes).unwrap_err(), FormatError::Truncated);
    bytes.extend_from_slice(&[0u8; 679]);
    assert_eq!(SMT::read(&bytes).unwrap_err(), FormatError::Truncated);
    bytes.push(0);
    assert_eq!(SMT::read(&bytes).unwrap().tiles.len(), 10);
}

#[test]
fn smt_cut_anywhere_is_never_another_archive() {
    let bytes = archive_bytes(2, 2);
    for cut in 0..bytes.len() {
        let expected = if cut < 16 { FormatError::BadMagic } else { FormatError::Truncated };
        assert_eq!(SMT::read(&bytes[..cut]).unwrap_err(), expected, "cut at {}", cut);
    }
}

#[test]
fn smt_with_a_huge_tile_count_is_truncated() {
    let bytes = archive_bytes(u32::MAX, 1);
    assert_eq!(SMT::read(&bytes).unwrap_err(), FormatError::Truncated);
}

#[test]
fn smt_bad_magic() {
    assert_eq!(SMT::read(&[]).unwrap_err(), FormatError::BadMagic);
    assert_eq!(SMT::read(b"spring tilefile").unwrap_err(), FormatError::BadMagic);
    let good = archive_bytes(1, 1);
    for i in 0..16usize {
        let mut bytes = good.clone();
        bytes[i] ^= 0x20;
        assert_eq!(SMT::read(&bytes).unwrap_err(), FormatError::BadMagic);
    }
    let mut map = good.clone();
    map[..16].copy_from_slice(b"spring map file\0");
    assert_eq!(SMT::read(&map).unwrap_err(), FormatError::BadMagic);
}

#[test]
fn smt_decoding_twice_gives_the_same() {
    let bytes = archive_bytes(4, 4);
    let first = SMT::read(&bytes).unwrap();
    let second = SMT::read(&bytes).unwrap();
    assert_eq!(format!("{:?}", first), format!("{:?}", second));
    assert_eq!(first.tiles.len(), first.header.num_tiles as usize);
    for tile in &first.tiles {
        assert_eq!(
            (tile.mip_map32.len(), tile.mip_map16.len(), tile.mip_map8.len(), tile.mip_map4.len()),
            (512, 128, 32, 8)
        );
    }
}

#[test]
fn tile_record() {
    let bytes = archive_bytes(1, 1);
    let tile = Tile::read_at(&bytes, 32).unwrap();
    assert_eq!(tile.mip_map32[0], bytes[32]);
    assert_eq!(tile.mip_map16[0], bytes[32 + 512]);
    assert_eq!(tile.mip_map8[0], bytes[32 + 640]);
    assert_eq!(tile.mip_map4[7], bytes[32 + 679]);
    assert_eq!(Tile::read_at(&bytes, 33).unwrap_err(), FormatError::Truncated);
    assert_eq!(Tile::read_at(&bytes, usize::MAX).unwrap_err(), FormatError::Truncated);
}
