//! The texture engine: decompresses the tile of each cell of the index
//! table and places it in one raster that covers the whole map.

use crate::bc1::bc1_decompress;
use crate::bc1::bc1_pixels;
use crate::error::FormatError;
use crate::smf::SMFView;
use crate::smf::SMF;
use crate::smt::SMTView;
use crate::smt::TileView;
use crate::smt::COMPRESSION_BC1;
use crate::smt::SMT;
use vstd::arithmetic::div_mod::lemma_fundamental_div_mod;
use vstd::arithmetic::div_mod::lemma_fundamental_div_mod_converse;
use vstd::arithmetic::div_mod::lemma_mod_bound;
use vstd::prelude::*;

verus! {

/// Pixels along one side of a tile.
pub const TILE_SIDE: usize = 32;

/// Bytes of one decompressed tile: 32 by 32 pixels of four bytes.
pub const TILE_BYTES: usize = 4096;

/// Columns of the tile grid of a map that is `width` squares wide.
pub open spec fn tile_columns(width: u32) -> int {
    width as int / 4
}

/// Rows of the tile grid of a map that is `length` squares long.
pub open spec fn tile_rows(length: u32) -> int {
    length as int / 4
}

/// Bytes of the texture of a map: four for each pixel of a raster that is
/// 32 pixels wide and high for each cell of the tile grid.
pub open spec fn texture_len(width: u32, length: u32) -> int {
    (tile_columns(width) * 32) * (tile_rows(length) * 32) * 4
}

/// Offset of a byte in a raster of `cols` tiles a row: `b` is the byte's
/// offset inside the decompressed tile of cell (`row`, `col`). Pixel `n` of
/// the tile has its four bytes at `b = 4 * n .. 4 * n + 4`, so `b / 128` is
/// the pixel's row inside the tile and `b % 128` its place in that row. A
/// row of the raster is made of `cols` stretches of 128 bytes, one for each
/// tile that it crosses.
pub open spec fn canvas_offset(cols: int, row: int, col: int, b: int) -> int {
    ((row * 32 + b / 128) * cols + col) * 128 + b % 128
}

/// The row of the grid cell that offset `k` of the raster lies in.
pub open spec fn cell_row(cols: int, k: int) -> int {
    k / 128 / cols / 32
}

/// The column of the grid cell that offset `k` of the raster lies in.
pub open spec fn cell_col(cols: int, k: int) -> int {
    k / 128 % cols
}

/// The offset, inside the decompressed tile of its cell, of the byte at
/// offset `k` of the raster.
pub open spec fn block_offset(cols: int, k: int) -> int {
    k / 128 / cols % 32 * 128 + k % 128
}

/// `canvas` with the decompressed tile `block` placed at cell (`row`,
/// `col`): the bytes of that cell come from `block`, all others stay.
pub open spec fn blit(canvas: Seq<u8>, block: Seq<u8>, cols: int, row: int, col: int) -> Seq<u8> {
    Seq::new(
        canvas.len(),
        |k: int|
            if cell_row(cols, k) == row && cell_col(cols, k) == col {
                block[block_offset(cols, k)]
            } else {
                canvas[k]
            },
    )
}

/// A byte of cell (`row`, `col`) lies at the offset that the cell, and the
/// byte's place in the tile, give it; no two bytes share an offset.
pub proof fn lemma_canvas_offset_split(cols: int, row: int, col: int, b: int)
    requires
        0 <= row,
        0 <= col < cols,
        0 <= b < 4096,
    ensures
        0 <= canvas_offset(cols, row, col, b) < (row + 1) * cols * 4096,
        cell_row(cols, canvas_offset(cols, row, col, b)) == row,
        cell_col(cols, canvas_offset(cols, row, col, b)) == col,
        block_offset(cols, canvas_offset(cols, row, col, b)) == b,
{
    let y: int = row * 32 + b / 128;
    let q: int = y * cols + col;
    let k: int = canvas_offset(cols, row, col, b);
    assert(k == q * 128 + b % 128);
    assert(0 <= y * cols && y * cols + cols <= (row + 1) * cols * 32) by (nonlinear_arith)
        requires
            0 <= y <= row * 32 + 31,
            0 < cols,
    ;
    assert(k / 128 == q && k % 128 == b % 128);
    lemma_fundamental_div_mod_converse(q, cols, y, col);
}

/// Every offset of the raster is the offset of one byte of one cell.
pub proof fn lemma_canvas_offset_join(cols: int, k: int)
    requires
        0 < cols,
        0 <= k,
    ensures
        0 <= cell_row(cols, k),
        0 <= cell_col(cols, k) < cols,
        0 <= block_offset(cols, k) < 4096,
        canvas_offset(cols, cell_row(cols, k), cell_col(cols, k), block_offset(cols, k)) == k,
{
    let q: int = k / 128;
    let y: int = q / cols;
    let c: int = q % cols;
    lemma_fundamental_div_mod(q, cols);
    lemma_mod_bound(q, cols);
    assert(0 <= y) by (nonlinear_arith)
        requires
            q == cols * y + c,
            0 <= q,
            0 <= c < cols,
    ;
    let b: int = block_offset(cols, k);
    assert(b == y % 32 * 128 + k % 128);
    assert(b / 128 == y % 32 && b % 128 == k % 128);
    assert(cell_row(cols, k) * 32 + b / 128 == y);
    assert(cols * y == y * cols) by (nonlinear_arith);
}

/// Cells do not overlap: two tiles placed at different cells can be placed in
/// either order.
pub proof fn lemma_blit_cells_disjoint(
    canvas: Seq<u8>,
    cols: int,
    first: Seq<u8>,
    row1: int,
    col1: int,
    second: Seq<u8>,
    row2: int,
    col2: int,
)
    requires
        row1 != row2 || col1 != col2,
    ensures
        blit(blit(canvas, first, cols, row1, col1), second, cols, row2, col2) == blit(
            blit(canvas, second, cols, row2, col2),
            first,
            cols,
            row1,
            col1,
        ),
{
    assert(blit(blit(canvas, first, cols, row1, col1), second, cols, row2, col2) =~= blit(
        blit(canvas, second, cols, row2, col2),
        first,
        cols,
        row1,
        col1,
    ));
}

/// Byte `c` of pixel `n` of the tile of cell (`row`, `col`) lies in row
/// `row * 32 + n / 32` and column `col * 32 + n % 32` of the raster, whose
/// rows are `cols * 128` bytes long.
pub proof fn lemma_pixel_offset(cols: int, row: int, col: int, n: int, c: int)
    requires
        0 <= row,
        0 <= col < cols,
        0 <= n < 1024,
        0 <= c < 4,
    ensures
        canvas_offset(cols, row, col, 4 * n + c) == (row * 32 + n / 32) * (cols * 128) + (col * 32
            + n % 32) * 4 + c,
        0 <= (row * 32 + n / 32) * (cols * 128),
        (row * 32 + n / 32) * (cols * 128) + (col * 32 + n % 32) * 4 + c < (row + 1) * cols * 4096,
{
    let b: int = 4 * n + c;
    let y: int = row * 32 + n / 32;
    assert(b / 128 == n / 32 && b % 128 == (n % 32) * 4 + c);
    lemma_canvas_offset_split(cols, row, col, b);
    assert((y * cols + col) * 128 == y * (cols * 128) + col * 128) by (nonlinear_arith);
    assert(0 <= y * (cols * 128)) by (nonlinear_arith)
        requires
            0 <= y,
            0 < cols,
    ;
}

/// An offset that lies in cell (`row`, `col`) is the offset of the byte of
/// that cell that `block_offset` names.
pub proof fn lemma_offset_in_cell(cols: int, row: int, col: int, k: int)
    requires
        0 < cols,
        0 <= k,
        cell_row(cols, k) == row,
        cell_col(cols, k) == col,
    ensures
        0 <= block_offset(cols, k) < 4096,
        k == canvas_offset(cols, row, col, block_offset(cols, k)),
{
    lemma_canvas_offset_join(cols, k);
}

/// `canvas` with the first `done` bytes of the decompressed tile `block`
/// placed at cell (`row`, `col`).
pub open spec fn blit_partial(
    canvas: Seq<u8>,
    block: Seq<u8>,
    cols: int,
    row: int,
    col: int,
    done: int,
) -> Seq<u8> {
    Seq::new(
        canvas.len(),
        |k: int|
            if cell_row(cols, k) == row && cell_col(cols, k) == col && block_offset(cols, k)
                < done {
                block[block_offset(cols, k)]
            } else {
                canvas[k]
            },
    )
}

/// Placing pixel `n` of a tile, after the pixels before it, writes the four
/// bytes at the pixel's offset and leaves all others.
pub proof fn lemma_blit_pixel(
    canvas: Seq<u8>,
    block: Seq<u8>,
    cols: int,
    row: int,
    col: int,
    n: int,
)
    requires
        0 <= row,
        0 <= col < cols,
        0 <= n < 1024,
        (row + 1) * cols * 4096 <= canvas.len(),
    ensures
        ({
            let i = (row * 32 + n / 32) * (cols * 128) + (col * 32 + n % 32) * 4;
            &&& 0 <= i
            &&& i + 4 <= canvas.len()
            &&& blit_partial(canvas, block, cols, row, col, 4 * n + 4) == blit_partial(
                canvas,
                block,
                cols,
                row,
                col,
                4 * n,
            ).update(i, block[4 * n]).update(i + 1, block[4 * n + 1]).update(
                i + 2,
                block[4 * n + 2],
            ).update(i + 3, block[4 * n + 3])
        }),
{
    let i = (row * 32 + n / 32) * (cols * 128) + (col * 32 + n % 32) * 4;
    let earlier = blit_partial(canvas, block, cols, row, col, 4 * n);
    let later = blit_partial(canvas, block, cols, row, col, 4 * n + 4);
    let written = earlier.update(i, block[4 * n]).update(i + 1, block[4 * n + 1]).update(
        i + 2,
        block[4 * n + 2],
    ).update(i + 3, block[4 * n + 3]);
    lemma_pixel_offset(cols, row, col, n, 0);
    lemma_pixel_offset(cols, row, col, n, 3);
    assert forall|k: int| 0 <= k < canvas.len() implies later[k] == #[trigger] written[k] by {
        if i <= k < i + 4 {
            let c = k - i;
            lemma_pixel_offset(cols, row, col, n, c);
            lemma_canvas_offset_split(cols, row, col, 4 * n + c);
            assert(written[k] == block[4 * n + c]);
        } else {
            assert(written[k] == earlier[k]);
            if cell_row(cols, k) == row && cell_col(cols, k) == col {
                lemma_offset_in_cell(cols, row, col, k);
                let b = block_offset(cols, k);
                if 4 * n <= b < 4 * n + 4 {
                    lemma_pixel_offset(cols, row, col, n, b - 4 * n);
                    assert(k == i + (b - 4 * n));
                }
            }
        }
    }
    assert(later =~= written);
}

/// Before any byte of a tile is placed the raster is as it was; after all
/// 4096 the tile is placed.
pub proof fn lemma_blit_partial_ends(canvas: Seq<u8>, block: Seq<u8>, cols: int, row: int, col: int)
    requires
        0 < cols,
    ensures
        blit_partial(canvas, block, cols, row, col, 0) == canvas,
        blit_partial(canvas, block, cols, row, col, 4096) == blit(canvas, block, cols, row, col),
{
    assert forall|k: int| 0 <= k < canvas.len() implies blit_partial(
        canvas,
        block,
        cols,
        row,
        col,
        0,
    )[k] == canvas[k] && blit_partial(canvas, block, cols, row, col, 4096)[k] == blit(
        canvas,
        block,
        cols,
        row,
        col,
    )[k] by {
        lemma_canvas_offset_join(cols, k);
    }
    assert(blit_partial(canvas, block, cols, row, col, 0) =~= canvas);
    assert(blit_partial(canvas, block, cols, row, col, 4096) =~= blit(
        canvas,
        block,
        cols,
        row,
        col,
    ));
}

/// Whether a decompressed tile of `block_len` bytes can be placed at cell
/// (`row`, `col`) of a raster of `len` bytes and `cols` tiles a row: the tile
/// is whole, and the cell lies inside the raster.
pub open spec fn cell_fits(len: nat, block_len: nat, cols: int, row: int, col: int) -> bool {
    &&& block_len == 4096
    &&& 0 <= col < cols
    &&& 0 <= row
    &&& (row + 1) * cols * 4096 <= len
}

/// Places the decompressed tile `block` at cell (`row`, `col`) of `data`, a
/// raster of `tile_columns` tiles a row, and says whether it did.
///
/// Pixel `n` of the tile, in row `n / 32` and column `n % 32` of it, goes to
/// row `row * 32 + n / 32` and column `col * 32 + n % 32` of the raster, all
/// four bytes of it. Nothing outside the cell is written. Where the tile is
/// not whole or the cell does not lie inside the raster, nothing is written
/// at all.
pub fn blit_tile(
    data: &mut Vec<u8>,
    block: &[u8],
    tile_columns: usize,
    row: usize,
    col: usize,
) -> (placed: bool)
    ensures
        placed == cell_fits(
            old(data)@.len(),
            block@.len(),
            tile_columns as int,
            row as int,
            col as int,
        ),
        placed ==> final(data)@ == blit(
            old(data)@,
            block@,
            tile_columns as int,
            row as int,
            col as int,
        ),
        !placed ==> final(data)@ == old(data)@,
{
    let ghost before: Seq<u8> = data@;
    let ghost cols: int = tile_columns as int;
    let len: usize = data.len();
    if block.len() != TILE_BYTES || col >= tile_columns || tile_columns > len / TILE_BYTES {
        proof {
            if block.len() == 4096 && col < tile_columns {
                assert(len < (row + 1) * cols * 4096) by (nonlinear_arith)
                    requires
                        len < cols * 4096,
                        0 <= row,
                ;
            }
        }
        return false;
    }
    let band: usize = tile_columns * TILE_BYTES;
    proof {
        assert((row + 1) * cols * 4096 == (row + 1) * band) by (nonlinear_arith)
            requires
                band == cols * 4096,
        ;
        lemma_fundamental_div_mod(len as int, band as int);
        lemma_mod_bound(len as int, band as int);
    }
    if row >= len / band {
        proof {
            assert(len < (row + 1) * band) by (nonlinear_arith)
                requires
                    len == band * (len / band) + len % band,
                    len % band < band,
                    len / band <= row,
                    0 < band,
            ;
        }
        return false;
    }
    proof {
        assert((row + 1) * band <= len) by (nonlinear_arith)
            requires
                len == band * (len / band) + len % band,
                0 <= len % band,
                row + 1 <= len / band,
                0 < band,
        ;
        lemma_blit_partial_ends(before, block@, cols, row as int, col as int);
        assert((row + 1) * 32 <= (row + 1) * cols * 4096) by (nonlinear_arith)
            requires
                0 <= row,
                0 < cols,
        ;
    }
    let row_bytes: usize = tile_columns * 128;
    let mut n: usize = 0;
    while n < 1024
        invariant
            n <= 1024,
            block.len() == 4096,
            0 <= col < tile_columns,
            cols == tile_columns as int,
            row_bytes == cols * 128,
            before.len() == data.len(),
            (row + 1) * cols * 4096 <= data.len(),
            row * 32 + 32 <= usize::MAX,
            data@ == blit_partial(before, block@, cols, row as int, col as int, 4 * n),
        decreases 1024 - n,
    {
        proof {
            lemma_blit_pixel(before, block@, cols, row as int, col as int, n as int);
            lemma_pixel_offset(cols, row as int, col as int, n as int, 0);
        }
        let y: usize = row * 32 + n / 32;
        let i: usize = y * row_bytes + (col * 32 + n % 32) * 4;
        data.set(i, block[4 * n]);
        data.set(i + 1, block[4 * n + 1]);
        data.set(i + 2, block[4 * n + 2]);
        data.set(i + 3, block[4 * n + 3]);
        n += 1;
    }
    true
}

/// The decompressed top mip level of a tile: 32 by 32 pixels.
pub open spec fn tile_pixels(tile: TileView) -> Seq<u8> {
    bc1_pixels(tile.mip_map32, 32, 32)
}

/// Every tile has a top mip level of 512 bytes.
pub open spec fn tiles_sized(tiles: Seq<TileView>) -> bool {
    forall|i: int| 0 <= i < tiles.len() ==> (#[trigger] tiles[i]).mip_map32.len() == 512
}

/// Every entry of the index table names one of `count` tiles.
pub open spec fn indices_in_range(index: Seq<u32>, count: nat) -> bool {
    forall|i: int| 0 <= i < index.len() ==> (#[trigger] index[i]) < count
}

/// Why a map and a tile archive give no texture, or `None` where they give
/// one.
///
/// An archive that is not BC1 is refused before anything else is looked at.
/// `InvalidDimensions` stands for a width or length that is no multiple of
/// four, an index table that has not one entry for each cell of the grid, a
/// texture of more bytes than this machine can address, and a tile whose top
/// mip level is not 512 bytes long. `TileIndexOutOfBounds` stands for an
/// entry of the index table that names no tile of the archive.
pub open spec fn texture_error(smf: SMFView, smt: SMTView) -> Option<FormatError> {
    if smt.header.compression_type != 1 {
        Some(FormatError::UnsupportedCompression)
    } else if smf.header.width % 4 != 0 || smf.header.length % 4 != 0
        || smf.smt_file_info.tile_index.len() != tile_columns(smf.header.width) * tile_rows(
        smf.header.length,
    ) || texture_len(smf.header.width, smf.header.length) > usize::MAX || !tiles_sized(
        smt.tiles,
    ) {
        Some(FormatError::InvalidDimensions)
    } else if !indices_in_range(smf.smt_file_info.tile_index, smt.tiles.len()) {
        Some(FormatError::TileIndexOutOfBounds)
    } else {
        None
    }
}

/// The byte at offset `k` of the texture: the byte, at its place inside the
/// tile, of the decompressed tile that the index table selects for the cell
/// that `k` lies in. The table runs row by row over the grid.
pub open spec fn texture_byte(index: Seq<u32>, tiles: Seq<TileView>, cols: int, k: int) -> u8 {
    tile_pixels(tiles[index[cell_row(cols, k) * cols + cell_col(cols, k)] as int])[block_offset(
        cols,
        k,
    )]
}

/// The texture of a map: `texture_len` bytes, each as `texture_byte` gives
/// it.
pub open spec fn texture_of(smf: SMFView, smt: SMTView) -> Seq<u8> {
    Seq::new(
        texture_len(smf.header.width, smf.header.length) as nat,
        |k: int|
            texture_byte(
                smf.smt_file_info.tile_index,
                smt.tiles,
                tile_columns(smf.header.width),
                k,
            ),
    )
}

/// Width and height of the texture of a map, in pixels.
pub fn texture_size(smf: &SMF) -> (size: (u64, u64))
    ensures
        size.0 == tile_columns(smf.header.width) * 32,
        size.1 == tile_rows(smf.header.length) * 32,
        size.0 * size.1 * 4 == texture_len(smf.header.width, smf.header.length),
{
    ((smf.header.width / 4) as u64 * 32, (smf.header.length / 4) as u64 * 32)
}

/// A cell is known by its place in the row-by-row order of the grid.
pub proof fn lemma_cell_index_unique(cols: int, r1: int, c1: int, r2: int, c2: int)
    requires
        0 <= c1 < cols,
        0 <= c2 < cols,
        r1 * cols + c1 == r2 * cols + c2,
    ensures
        r1 == r2,
        c1 == c2,
{
    lemma_fundamental_div_mod_converse(r1 * cols + c1, cols, r1, c1);
    lemma_fundamental_div_mod_converse(r1 * cols + c1, cols, r2, c2);
}

/// An offset inside a raster of `rows` by `cols` tiles lies in a cell of
/// that grid.
pub proof fn lemma_cell_in_grid(cols: int, rows: int, k: int)
    requires
        0 < cols,
        0 <= rows,
        0 <= k < cols * rows * 4096,
    ensures
        0 <= cell_row(cols, k) < rows,
        0 <= cell_col(cols, k) < cols,
        0 <= cell_row(cols, k) * cols + cell_col(cols, k) < cols * rows,
{
    lemma_canvas_offset_join(cols, k);
    let r: int = cell_row(cols, k);
    let c: int = cell_col(cols, k);
    let b: int = block_offset(cols, k);
    assert(r < rows) by (nonlinear_arith)
        requires
            k == ((r * 32 + b / 128) * cols + c) * 128 + b % 128,
            k < cols * rows * 4096,
            0 <= b / 128,
            0 <= b % 128,
            0 <= c,
            0 < cols,
            0 <= r,
    ;
    assert(0 <= r * cols + c < cols * rows) by (nonlinear_arith)
        requires
            0 <= r < rows,
            0 <= c < cols,
    ;
}

/// Rebuilds the texture of a map at its full resolution.
///
/// The map's width and length, in squares, are divided by four to give the
/// columns and rows of the tile grid. For each cell, row by row, the entry
/// of the index table selects a tile of the archive; its top mip level is
/// decompressed to 32 by 32 pixels and placed at the cell. The result holds
/// four bytes for each pixel, row by row.
///
/// A map or an archive that `texture_error` refuses gives that error, and no
/// texture.
#[verifier::loop_isolation(false)]
pub fn extract_texture_32(smf: &SMF, smt: &SMT) -> (r: Result<Vec<u8>, FormatError>)
    ensures
        match r {
            Ok(data) => texture_error(smf@, smt@).is_none() && data@ == texture_of(smf@, smt@)
                && data@.len() == texture_len(smf.header.width, smf.header.length),
            Err(e) => texture_error(smf@, smt@) == Some(e),
        },
{
    if smt.header.compression_type != COMPRESSION_BC1 {
        return Err(FormatError::UnsupportedCompression);
    }
    let width: u32 = smf.header.width;
    let length: u32 = smf.header.length;
    if width % 4 != 0 || length % 4 != 0 {
        return Err(FormatError::InvalidDimensions);
    }
    let tile_columns: usize = (width / 4) as usize;
    let tile_rows: usize = (length / 4) as usize;
    let ghost cols: int = tile_columns as int;
    let ghost rows: int = tile_rows as int;
    let ghost index: Seq<u32> = smf@.smt_file_info.tile_index;
    let ghost tiles: Seq<TileView> = smt@.tiles;
    proof {
        assert((cols * 32) * (rows * 32) * 4 == cols * rows * 4096) by (nonlinear_arith);
        assert(0 <= cols * rows <= 0x4000_0000 * 0x4000_0000) by (nonlinear_arith)
            requires
                0 <= cols < 0x4000_0000,
                0 <= rows < 0x4000_0000,
        ;
    }
    let grid: u64 = (width / 4) as u64 * (length / 4) as u64;
    if grid != smf.smt_file_info.tile_index.0.len() as u64 {
        return Err(FormatError::InvalidDimensions);
    }
    let cells: usize = grid as usize;
    if cells > usize::MAX / TILE_BYTES {
        return Err(FormatError::InvalidDimensions);
    }
    let mut t: usize = 0;
    while t < smt.tiles.len()
        invariant
            t <= smt.tiles.len(),
            forall|i: int| 0 <= i < t ==> (#[trigger] tiles[i]).mip_map32.len() == 512,
        decreases smt.tiles.len() - t,
    {
        if smt.tiles[t].mip_map32.len() != 512 {
            assert(tiles[t as int].mip_map32.len() != 512);
            return Err(FormatError::InvalidDimensions);
        }
        t += 1;
    }
    let mut j: usize = 0;
    while j < cells
        invariant
            j <= cells,
            forall|i: int| 0 <= i < j ==> (#[trigger] index[i]) < tiles.len(),
        decreases cells - j,
    {
        if smf.smt_file_info.tile_index.0[j] as usize >= smt.tiles.len() {
            assert(!(index[j as int] < tiles.len()));
            return Err(FormatError::TileIndexOutOfBounds);
        }
        j += 1;
    }
    let mut data: Vec<u8> = vec![0u8; cells * TILE_BYTES];
    let mut tile_i: usize = 0;
    proof {
        assert forall|k: int| 0 <= k < data.len() implies 0 <= cell_row(cols, k) * cols + cell_col(
            cols,
            k,
        ) by {
            if cols == 0 {
                assert(cols * rows == 0) by (nonlinear_arith)
                    requires
                        cols == 0,
                ;
            } else {
                lemma_cell_in_grid(cols, rows, k);
            }
        }
    }
    let mut row: usize = 0;
    while row < tile_rows
        invariant
            row <= tile_rows,
            tile_i == row * cols,
            data.len() == cells * 4096,
            forall|k: int|
                0 <= k < data.len() && cell_row(cols, k) * cols + cell_col(cols, k) < tile_i
                    ==> data@[k] == texture_byte(index, tiles, cols, k),
        decreases tile_rows - row,
    {
        let mut col: usize = 0;
        while col < tile_columns
            invariant
                row < tile_rows,
                col <= tile_columns,
                tile_i == row * cols + col,
                data.len() == cells * 4096,
                forall|k: int|
                    0 <= k < data.len() && cell_row(cols, k) * cols + cell_col(cols, k) < tile_i
                        ==> data@[k] == texture_byte(index, tiles, cols, k),
            decreases tile_columns - col,
        {
            proof {
                assert(row * cols + col < cols * rows) by (nonlinear_arith)
                    requires
                        0 <= row < rows,
                        0 <= col < cols,
                ;
                assert((row + 1) * cols * 4096 <= cols * rows * 4096) by (nonlinear_arith)
                    requires
                        0 <= row < rows,
                        0 < cols,
                ;
            }
            let tile_index: u32 = smf.smt_file_info.tile_index.0[tile_i];
            assert(tile_index == index[tile_i as int]);
            let dxt1: &Vec<u8> = &smt.tiles[tile_index as usize].mip_map32;
            assert(dxt1@ == tiles[tile_index as int].mip_map32);
            let mut tile_buf: Vec<u8> = vec![0u8; TILE_BYTES];
            bc1_decompress(dxt1.as_slice(), TILE_SIDE, TILE_SIDE, &mut tile_buf);
            let ghost prev: Seq<u8> = data@;
            if !blit_tile(&mut data, tile_buf.as_slice(), tile_columns, row, col) {
                return Err(FormatError::InvalidDimensions);
            }
            proof {
                assert forall|k: int|
                    0 <= k < data.len() && cell_row(cols, k) * cols + cell_col(cols, k) < tile_i
                        + 1 implies data@[k] == texture_byte(index, tiles, cols, k) by {
                    lemma_canvas_offset_join(cols, k);
                    if cell_row(cols, k) * cols + cell_col(cols, k) == tile_i {
                        lemma_cell_index_unique(
                            cols,
                            cell_row(cols, k),
                            cell_col(cols, k),
                            row as int,
                            col as int,
                        );
                    } else {
                        assert(data@[k] == prev[k]);
                    }
                }
            }
            col += 1;
            tile_i += 1;
        }
        row += 1;
        proof {
            assert((row - 1) * cols + cols == row * cols) by (nonlinear_arith);
        }
    }
    proof {
        assert(row * cols == cols * rows) by (nonlinear_arith)
            requires
                row == rows,
        ;
        assert forall|k: int| 0 <= k < data.len() implies data@[k] == texture_of(smf@, smt@)[k] by {
            if cols == 0 {
                assert(cols * rows == 0) by (nonlinear_arith)
                    requires
                        cols == 0,
                ;
            } else {
                lemma_cell_in_grid(cols, rows, k);
            }
        }
        assert(data@ =~= texture_of(smf@, smt@));
    }
    Ok(data)
}

/// Each cell of the texture is the tile that the index table selects for
/// it: for the cell in row `row` and column `col` of the grid, pixel `n` of
/// the decompressed tile has its byte `c` in row `row * 32 + n / 32` and
/// column `col * 32 + n % 32` of the raster, whose rows are
/// `tile_columns * 32 * 4` bytes long.
pub proof fn lemma_texture_cell(smf: SMFView, smt: SMTView, row: int, col: int, n: int, c: int)
    requires
        texture_error(smf, smt).is_none(),
        0 <= row < tile_rows(smf.header.length),
        0 <= col < tile_columns(smf.header.width),
        0 <= n < 1024,
        0 <= c < 4,
    ensures
        ({
            let cols = tile_columns(smf.header.width);
            let at = (row * 32 + n / 32) * (cols * 32 * 4) + (col * 32 + n % 32) * 4 + c;
            let tile = smt.tiles[smf.smt_file_info.tile_index[row * cols + col] as int];
            &&& 0 <= at < texture_len(smf.header.width, smf.header.length)
            &&& texture_of(smf, smt)[at] == tile_pixels(tile)[n * 4 + c]
        }),
{
    let cols = tile_columns(smf.header.width);
    let rows = tile_rows(smf.header.length);
    let b = n * 4 + c;
    let at = (row * 32 + n / 32) * (cols * 32 * 4) + (col * 32 + n % 32) * 4 + c;
    assert(cols * 32 * 4 == cols * 128);
    lemma_pixel_offset(cols, row, col, n, c);
    assert(at == canvas_offset(cols, row, col, b));
    lemma_canvas_offset_split(cols, row, col, b);
    assert((row + 1) * cols * 4096 <= (cols * 32) * (rows * 32) * 4) by (nonlinear_arith)
        requires
            0 <= row < rows,
            0 < cols,
    ;
}

/// Two cells that the index table gives the same tile show the same pixels.
pub proof fn lemma_same_tile_same_pixels(
    smf: SMFView,
    smt: SMTView,
    row1: int,
    col1: int,
    row2: int,
    col2: int,
    b: int,
)
    requires
        texture_error(smf, smt).is_none(),
        0 <= row1 < tile_rows(smf.header.length),
        0 <= col1 < tile_columns(smf.header.width),
        0 <= row2 < tile_rows(smf.header.length),
        0 <= col2 < tile_columns(smf.header.width),
        0 <= b < 4096,
        smf.smt_file_info.tile_index[row1 * tile_columns(smf.header.width) + col1]
            == smf.smt_file_info.tile_index[row2 * tile_columns(smf.header.width) + col2],
    ensures
        texture_of(smf, smt)[canvas_offset(tile_columns(smf.header.width), row1, col1, b)]
            == texture_of(smf, smt)[canvas_offset(tile_columns(smf.header.width), row2, col2, b)],
{
    let n = b / 4;
    let c = b % 4;
    let cols = tile_columns(smf.header.width);
    lemma_texture_cell(smf, smt, row1, col1, n, c);
    lemma_texture_cell(smf, smt, row2, col2, n, c);
    lemma_pixel_offset(cols, row1, col1, n, c);
    lemma_pixel_offset(cols, row2, col2, n, c);
    assert(cols * 32 * 4 == cols * 128);
}

} // verus!
