//! The planar tile format: one byte per row and bit plane, the leftmost
//! pixel in bit 7, planes stored in interleaved pairs.
//!
//! Byte `k` of a tile belongs to row `(k % 16) / 2` and to plane
//! `2 * (k / 16) + k % 2`: the first 16 bytes hold planes 0 and 1 in turn,
//! row after row, the next 16 bytes planes 2 and 3, and so on.

use crate::depth::BitsPerPixel;
use crate::mirror::{mirrored, source_pixel, Mirror};
use vstd::prelude::*;

verus! {

/// Bit `plane` of a pixel, as 0 or 1.
pub open spec fn plane_bit(pixel: u8, plane: u8) -> u8 {
    (pixel >> plane) & 1
}

/// The byte that holds bit `plane` of eight pixels, the first in bit 7.
pub open spec fn row_bits(
    px0: u8,
    px1: u8,
    px2: u8,
    px3: u8,
    px4: u8,
    px5: u8,
    px6: u8,
    px7: u8,
    plane: u8,
) -> u8 {
    (plane_bit(px0, plane) << 7) | (plane_bit(px1, plane) << 6) | (plane_bit(px2, plane) << 5) | (
    plane_bit(px3, plane) << 4) | (plane_bit(px4, plane) << 3) | (plane_bit(px5, plane) << 2) | (
    plane_bit(px6, plane) << 1) | plane_bit(px7, plane)
}

/// The byte of one row of a block in one plane.
pub open spec fn plane_row(block: Seq<u8>, row: int, plane: int) -> u8 {
    row_bits(
        block[8 * row],
        block[8 * row + 1],
        block[8 * row + 2],
        block[8 * row + 3],
        block[8 * row + 4],
        block[8 * row + 5],
        block[8 * row + 6],
        block[8 * row + 7],
        plane as u8,
    )
}

/// The row of a block that byte `k` of its tile belongs to.
pub open spec fn tile_row(k: int) -> int {
    (k % 16) / 2
}

/// The bit plane that byte `k` of a tile belongs to.
pub open spec fn tile_plane(k: int) -> int {
    2 * (k / 16) + k % 2
}

/// Where a tile holds the byte of the given plane and row.
pub open spec fn byte_index(plane: int, row: int) -> int {
    16 * (plane / 2) + 2 * row + plane % 2
}

/// Byte `k` of the tile of a block.
pub open spec fn tile_byte(block: Seq<u8>, k: int) -> u8 {
    plane_row(block, tile_row(k), tile_plane(k))
}

/// The tile of a block at the given depth: 16, 32 or 64 bytes.
pub open spec fn packed(block: Seq<u8>, depth: BitsPerPixel) -> Seq<u8> {
    Seq::new(depth.tile_len(), |k: int| tile_byte(block, k))
}

/// The tile of a block drawn under the given mirroring: the pixels are
/// exchanged first and packed then.
pub open spec fn variant(block: Seq<u8>, depth: BitsPerPixel, mirror: Mirror) -> Seq<u8> {
    packed(mirrored(block, mirror), depth)
}

/// The byte of a row after one more pixel: the bit of the pixel's column is
/// set where the pixel has the plane's bit set.
spec fn with_column(before: u8, pixel: u8, plane: u8, column: u8) -> u8 {
    if pixel & (1u8 << plane) != 0 {
        before | (0x80u8 >> column)
    } else {
        before
    }
}

/// The byte of a row once its first `n` columns are in.
spec fn row_prefix(block: Seq<u8>, row: int, plane: int, n: int) -> u8
    decreases n,
{
    if n <= 0 {
        0
    } else {
        with_column(
            row_prefix(block, row, plane, n - 1),
            block[8 * row + n - 1],
            plane as u8,
            (n - 1) as u8,
        )
    }
}

proof fn lemma_columns_make_row(
    px0: u8,
    px1: u8,
    px2: u8,
    px3: u8,
    px4: u8,
    px5: u8,
    px6: u8,
    px7: u8,
    plane: u8,
)
    by (bit_vector)
    requires
        plane < 8,
    ensures
        with_column(
            with_column(
                with_column(
                    with_column(
                        with_column(
                            with_column(
                                with_column(with_column(0u8, px0, plane, 0), px1, plane, 1),
                                px2,
                                plane,
                                2,
                            ),
                            px3,
                            plane,
                            3,
                        ),
                        px4,
                        plane,
                        4,
                    ),
                    px5,
                    plane,
                    5,
                ),
                px6,
                plane,
                6,
            ),
            px7,
            plane,
            7,
        ) == row_bits(px0, px1, px2, px3, px4, px5, px6, px7, plane),
{
}

proof fn lemma_row_prefix_full(block: Seq<u8>, row: int, plane: int)
    requires
        0 <= plane < 8,
    ensures
        row_prefix(block, row, plane, 8) == plane_row(block, row, plane),
{
    reveal_with_fuel(row_prefix, 9);
    lemma_columns_make_row(
        block[8 * row],
        block[8 * row + 1],
        block[8 * row + 2],
        block[8 * row + 3],
        block[8 * row + 4],
        block[8 * row + 5],
        block[8 * row + 6],
        block[8 * row + 7],
        plane as u8,
    );
}

proof fn lemma_exchange(i: usize, mask: usize)
    by (bit_vector)
    requires
        i < 8,
        mask == 0 || mask == 7,
    ensures
        mask == 0 ==> i ^ mask == i,
        mask == 7 ==> i ^ mask == 7 - i,
{
}

/// Where the pixel at a column and row of a mirrored block comes from.
proof fn lemma_mirrored_pixel(block: Seq<u8>, mirror: Mirror, row: int, column: int)
    requires
        0 <= row < 8,
        0 <= column < 8,
    ensures
        mirrored(block, mirror)[8 * row + column] == block[8 * (if mirror.flips_rows() {
            7 - row
        } else {
            row
        }) + (if mirror.flips_columns() {
            7 - column
        } else {
            column
        })],
{
    let i = 8 * row + column;
    assert(i / 8 == row && i % 8 == column);
    assert(source_pixel(i, mirror) == 8 * (if mirror.flips_rows() {
        7 - row
    } else {
        row
    }) + (if mirror.flips_columns() {
        7 - column
    } else {
        column
    }));
}

/// One more column of a row.
proof fn lemma_row_prefix_step(block: Seq<u8>, row: int, plane: int, n: int)
    requires
        0 <= n,
    ensures
        row_prefix(block, row, plane, n + 1) == with_column(
            row_prefix(block, row, plane, n),
            block[8 * row + n],
            plane as u8,
            n as u8,
        ),
{
    reveal_with_fuel(row_prefix, 2);
}

/// The byte of one row of a block in one plane, as the block looks under
/// the given mirroring.
fn pack_row(block: &[u8], mirror: Mirror, row: usize, plane: usize) -> (byte: u8)
    requires
        block@.len() == 64,
        row < 8,
        plane < 8,
    ensures
        byte == plane_row(mirrored(block@, mirror), row as int, plane as int),
{
    let column_mask: usize = mirror.column_mask();
    let row_mask: usize = mirror.row_mask();
    let ghost turned = mirrored(block@, mirror);
    let mask: u8 = 1u8 << (plane as u8);
    proof {
        lemma_exchange(row, row_mask);
    }
    let from: usize = 8 * (row ^ row_mask);
    let mut byte: u8 = 0;
    for column in 0..8usize
        invariant
            block@.len() == 64,
            turned == mirrored(block@, mirror),
            column_mask == 0 || column_mask == 7,
            column_mask == 7 <==> mirror.flips_columns(),
            from == 8 * (if mirror.flips_rows() {
                7 - row
            } else {
                row as int
            }),
            row < 8,
            plane < 8,
            mask == 1u8 << (plane as u8),
            byte == row_prefix(turned, row as int, plane as int, column as int),
    {
        proof {
            lemma_exchange(column, column_mask);
            lemma_mirrored_pixel(block@, mirror, row as int, column as int);
            lemma_row_prefix_step(turned, row as int, plane as int, column as int);
        }
        let source: usize = from + (column ^ column_mask);
        let shift: u8 = column as u8;
        if block[source] & mask != 0 {
            byte = byte | (0x80u8 >> shift);
        }
    }
    proof {
        lemma_row_prefix_full(turned, row as int, plane as int);
    }
    byte
}

/// Packs a block into its tile at the given depth, as it looks under the
/// given mirroring.
pub fn pack_block(block: &[u8], depth: BitsPerPixel, mirror: Mirror) -> (tile: Vec<u8>)
    requires
        block@.len() == 64,
    ensures
        tile@ == variant(block@, depth, mirror),
{
    let size: usize = depth.tile_size();
    let ghost turned = mirrored(block@, mirror);
    let mut tile: Vec<u8> = Vec::with_capacity(size);
    for k in 0..size
        invariant
            block@.len() == 64,
            size == depth.tile_len(),
            turned == mirrored(block@, mirror),
            tile@.len() == k,
            forall|j: int| 0 <= j < k ==> tile@[j] == tile_byte(turned, j),
    {
        let row: usize = (k % 16) / 2;
        let plane: usize = 2 * (k / 16) + k % 2;
        let byte: u8 = pack_row(block, mirror, row, plane);
        tile.push(byte);
    }
    assert(tile@ =~= variant(block@, depth, mirror));
    tile
}

/// Bit `7 - column` of a tile byte, as 0 or 1: what the byte says of the
/// pixel in that column.
pub open spec fn column_bit(byte: u8, column: u8) -> u8 {
    (byte >> ((7u8 - column) as u8)) & 1
}

/// The pixel whose bits 0 to 7 stand in the given column of eight bytes,
/// one byte per plane.
pub open spec fn pixel_bits(
    b0: u8,
    b1: u8,
    b2: u8,
    b3: u8,
    b4: u8,
    b5: u8,
    b6: u8,
    b7: u8,
    column: u8,
) -> u8 {
    column_bit(b0, column) | (column_bit(b1, column) << 1) | (column_bit(b2, column) << 2) | (
    column_bit(b3, column) << 3) | (column_bit(b4, column) << 4) | (column_bit(b5, column) << 5)
        | (column_bit(b6, column) << 6) | (column_bit(b7, column) << 7)
}

/// The byte of a tile for the given plane and row. A plane that the depth
/// does not have reads as zero.
pub open spec fn plane_byte(tile: Seq<u8>, depth: BitsPerPixel, plane: int, row: int) -> u8 {
    if plane < depth.bits() {
        tile[byte_index(plane, row)]
    } else {
        0
    }
}

/// The pixel that a tile holds at the given column and row.
pub open spec fn tile_pixel(tile: Seq<u8>, depth: BitsPerPixel, column: int, row: int) -> u8 {
    pixel_bits(
        plane_byte(tile, depth, 0, row),
        plane_byte(tile, depth, 1, row),
        plane_byte(tile, depth, 2, row),
        plane_byte(tile, depth, 3, row),
        plane_byte(tile, depth, 4, row),
        plane_byte(tile, depth, 5, row),
        plane_byte(tile, depth, 6, row),
        plane_byte(tile, depth, 7, row),
        column as u8,
    )
}

/// The 64 pixels that a tile holds, row by row.
pub open spec fn unpacked(tile: Seq<u8>, depth: BitsPerPixel) -> Seq<u8> {
    Seq::new(64, |i: int| tile_pixel(tile, depth, i % 8, i / 8))
}

/// The pixel after one more plane: the plane's bit is set where the
/// plane's byte has the bit of the column set.
spec fn with_plane(before: u8, byte: u8, column: u8, plane: u8) -> u8 {
    if byte & (0x80u8 >> column) != 0 {
        before | (1u8 << plane)
    } else {
        before
    }
}

/// The pixel once its first `n` planes are in.
spec fn pixel_prefix(tile: Seq<u8>, depth: BitsPerPixel, column: int, row: int, n: int) -> u8
    decreases n,
{
    if n <= 0 {
        0
    } else {
        with_plane(
            pixel_prefix(tile, depth, column, row, n - 1),
            plane_byte(tile, depth, n - 1, row),
            column as u8,
            (n - 1) as u8,
        )
    }
}

proof fn lemma_planes_make_pixel(
    b0: u8,
    b1: u8,
    b2: u8,
    b3: u8,
    b4: u8,
    b5: u8,
    b6: u8,
    b7: u8,
    column: u8,
)
    by (bit_vector)
    requires
        column < 8,
    ensures
        with_plane(with_plane(0u8, b0, column, 0), b1, column, 1) == pixel_bits(
            b0,
            b1,
            0,
            0,
            0,
            0,
            0,
            0,
            column,
        ),
        with_plane(
            with_plane(with_plane(with_plane(0u8, b0, column, 0), b1, column, 1), b2, column, 2),
            b3,
            column,
            3,
        ) == pixel_bits(b0, b1, b2, b3, 0, 0, 0, 0, column),
        with_plane(
            with_plane(
                with_plane(
                    with_plane(
                        with_plane(
                            with_plane(
                                with_plane(with_plane(0u8, b0, column, 0), b1, column, 1),
                                b2,
                                column,
                                2,
                            ),
                            b3,
                            column,
                            3,
                        ),
                        b4,
                        column,
                        4,
                    ),
                    b5,
                    column,
                    5,
                ),
                b6,
                column,
                6,
            ),
            b7,
            column,
            7,
        ) == pixel_bits(b0, b1, b2, b3, b4, b5, b6, b7, column),
{
}

proof fn lemma_pixel_prefix_full(tile: Seq<u8>, depth: BitsPerPixel, column: int, row: int)
    requires
        0 <= column < 8,
    ensures
        pixel_prefix(tile, depth, column, row, depth.bits() as int) == tile_pixel(
            tile,
            depth,
            column,
            row,
        ),
{
    reveal_with_fuel(pixel_prefix, 9);
    lemma_planes_make_pixel(
        plane_byte(tile, depth, 0, row),
        plane_byte(tile, depth, 1, row),
        plane_byte(tile, depth, 2, row),
        plane_byte(tile, depth, 3, row),
        plane_byte(tile, depth, 4, row),
        plane_byte(tile, depth, 5, row),
        plane_byte(tile, depth, 6, row),
        plane_byte(tile, depth, 7, row),
        column as u8,
    );
}

/// Reads the 64 pixels back from a tile of the given depth.
pub fn unpack_tile(tile: &[u8], depth: BitsPerPixel) -> (block: Vec<u8>)
    requires
        tile@.len() == depth.tile_len(),
    ensures
        block@ == unpacked(tile@, depth),
{
    let planes: usize = depth.plane_count();
    let mut block: Vec<u8> = Vec::with_capacity(64);
    for i in 0..64usize
        invariant
            tile@.len() == depth.tile_len(),
            planes == depth.bits(),
            block@.len() == i,
            forall|j: int| 0 <= j < i ==> block@[j] == tile_pixel(tile@, depth, j % 8, j / 8),
    {
        let column: usize = i % 8;
        let row: usize = i / 8;
        let bit: u8 = 0x80u8 >> (column as u8);
        let mut pixel: u8 = 0;
        for plane in 0..planes
            invariant
                tile@.len() == depth.tile_len(),
                planes == depth.bits(),
                column < 8,
                row < 8,
                bit == 0x80u8 >> (column as u8),
                pixel == pixel_prefix(tile@, depth, column as int, row as int, plane as int),
        {
            let byte: u8 = tile[16 * (plane / 2) + 2 * row + plane % 2];
            let shift: u8 = plane as u8;
            if byte & bit != 0 {
                pixel = pixel | (1u8 << shift);
            }
        }
        proof {
            lemma_pixel_prefix_full(tile@, depth, column as int, row as int);
        }
        block.push(pixel);
    }
    assert(block@ =~= unpacked(tile@, depth));
    block
}

} // verus!
