//! What packing and unpacking do to one another, and what mirroring does to
//! a tile: the laws of the tile format.

use crate::block::{palette_select, palette_start, serves};
use crate::depth::BitsPerPixel;
use crate::mirror::{lemma_mirrored_twice, mirrored, source_pixel, Mirror};
use crate::pack::{
    byte_index, column_bit, packed, pixel_bits, plane_bit, plane_byte, plane_row, row_bits,
    tile_byte, tile_pixel, tile_plane, tile_row, unpacked, variant,
};
use vstd::prelude::*;

verus! {

proof fn lemma_row_keeps_column(
    px0: u8,
    px1: u8,
    px2: u8,
    px3: u8,
    px4: u8,
    px5: u8,
    px6: u8,
    px7: u8,
    plane: u8,
    column: u8,
)
    by (bit_vector)
    requires
        plane < 8,
        column < 8,
    ensures
        column_bit(row_bits(px0, px1, px2, px3, px4, px5, px6, px7, plane), column) == plane_bit(
            if column == 0 {
                px0
            } else if column == 1 {
                px1
            } else if column == 2 {
                px2
            } else if column == 3 {
                px3
            } else if column == 4 {
                px4
            } else if column == 5 {
                px5
            } else if column == 6 {
                px6
            } else {
                px7
            },
            plane,
        ),
{
}

proof fn lemma_bits_make_pixel(
    pixel: u8,
    b0: u8,
    b1: u8,
    b2: u8,
    b3: u8,
    b4: u8,
    b5: u8,
    b6: u8,
    b7: u8,
    column: u8,
)
    by (bit_vector)
    requires
        column < 8,
        column_bit(b0, column) == plane_bit(pixel, 0),
        column_bit(b1, column) == plane_bit(pixel, 1),
        column_bit(b2, column) == plane_bit(pixel, 2),
        column_bit(b3, column) == plane_bit(pixel, 3),
        column_bit(b4, column) == plane_bit(pixel, 4),
        column_bit(b5, column) == plane_bit(pixel, 5),
        column_bit(b6, column) == plane_bit(pixel, 6),
        column_bit(b7, column) == plane_bit(pixel, 7),
    ensures
        pixel_bits(b0, b1, 0, 0, 0, 0, 0, 0, column) == pixel % 4,
        pixel_bits(b0, b1, b2, b3, 0, 0, 0, 0, column) == pixel % 16,
        pixel_bits(b0, b1, b2, b3, b4, b5, b6, b7, column) == pixel,
{
}

/// In the tile of a block, the byte of a plane and row is that row's byte
/// in that plane.
proof fn lemma_packed_byte(block: Seq<u8>, depth: BitsPerPixel, plane: int, row: int)
    requires
        0 <= plane < depth.bits(),
        0 <= row < 8,
    ensures
        0 <= byte_index(plane, row) < depth.tile_len(),
        packed(block, depth)[byte_index(plane, row)] == plane_row(block, row, plane),
{
    let k = byte_index(plane, row);
    assert(tile_row(k) == row);
    assert(tile_plane(k) == plane);
}

/// The byte of a row in a plane says of each column what the pixel there
/// has in that plane.
proof fn lemma_row_column(block: Seq<u8>, row: int, column: int, plane: int)
    requires
        0 <= row < 8,
        0 <= column < 8,
        0 <= plane < 8,
    ensures
        column_bit(plane_row(block, row, plane), column as u8) == plane_bit(
            block[8 * row + column],
            plane as u8,
        ),
{
    lemma_row_keeps_column(
        block[8 * row],
        block[8 * row + 1],
        block[8 * row + 2],
        block[8 * row + 3],
        block[8 * row + 4],
        block[8 * row + 5],
        block[8 * row + 6],
        block[8 * row + 7],
        plane as u8,
        column as u8,
    );
}

/// The pixel that the eight bytes of a row make in one column, where the
/// first `bits` of them are the row's bytes and the others are zero.
proof fn lemma_rows_make_pixel(block: Seq<u8>, row: int, column: int)
    requires
        0 <= row < 8,
        0 <= column < 8,
    ensures
        pixel_bits(
            plane_row(block, row, 0),
            plane_row(block, row, 1),
            0,
            0,
            0,
            0,
            0,
            0,
            column as u8,
        ) == block[8 * row + column] % 4,
        pixel_bits(
            plane_row(block, row, 0),
            plane_row(block, row, 1),
            plane_row(block, row, 2),
            plane_row(block, row, 3),
            0,
            0,
            0,
            0,
            column as u8,
        ) == block[8 * row + column] % 16,
        pixel_bits(
            plane_row(block, row, 0),
            plane_row(block, row, 1),
            plane_row(block, row, 2),
            plane_row(block, row, 3),
            plane_row(block, row, 4),
            plane_row(block, row, 5),
            plane_row(block, row, 6),
            plane_row(block, row, 7),
            column as u8,
        ) == block[8 * row + column],
{
    lemma_row_column(block, row, column, 0);
    lemma_row_column(block, row, column, 1);
    lemma_row_column(block, row, column, 2);
    lemma_row_column(block, row, column, 3);
    lemma_row_column(block, row, column, 4);
    lemma_row_column(block, row, column, 5);
    lemma_row_column(block, row, column, 6);
    lemma_row_column(block, row, column, 7);
    lemma_bits_make_pixel(
        block[8 * row + column],
        plane_row(block, row, 0),
        plane_row(block, row, 1),
        plane_row(block, row, 2),
        plane_row(block, row, 3),
        plane_row(block, row, 4),
        plane_row(block, row, 5),
        plane_row(block, row, 6),
        plane_row(block, row, 7),
        column as u8,
    );
}

/// What a depth keeps of a pixel: its two, four or eight low bits.
pub open spec fn kept_bits(pixel: u8, depth: BitsPerPixel) -> u8 {
    match depth {
        BitsPerPixel::Two => pixel % 4,
        BitsPerPixel::Four => pixel % 16,
        BitsPerPixel::Eight => pixel,
    }
}

/// The pixel that the tile of a block holds at a column and row: the
/// block's pixel there, as far as the depth has bits for it.
proof fn lemma_tile_pixel_of_packed(block: Seq<u8>, depth: BitsPerPixel, column: int, row: int)
    requires
        0 <= row < 8,
        0 <= column < 8,
    ensures
        tile_pixel(packed(block, depth), depth, column, row) == kept_bits(
            block[8 * row + column],
            depth,
        ),
{
    let tile = packed(block, depth);
    lemma_rows_make_pixel(block, row, column);
    lemma_packed_byte(block, depth, 0, row);
    lemma_packed_byte(block, depth, 1, row);
    match depth {
        BitsPerPixel::Two => {},
        BitsPerPixel::Four => {
            lemma_packed_byte(block, depth, 2, row);
            lemma_packed_byte(block, depth, 3, row);
        },
        BitsPerPixel::Eight => {
            lemma_packed_byte(block, depth, 2, row);
            lemma_packed_byte(block, depth, 3, row);
            lemma_packed_byte(block, depth, 4, row);
            lemma_packed_byte(block, depth, 5, row);
            lemma_packed_byte(block, depth, 6, row);
            lemma_packed_byte(block, depth, 7, row);
        },
    }
}

/// A tile gives back of each pixel the bits that the depth has.
pub proof fn lemma_unpack_packed_pixel(block: Seq<u8>, depth: BitsPerPixel, i: int)
    requires
        block.len() == 64,
        0 <= i < 64,
    ensures
        unpacked(packed(block, depth), depth)[i] == kept_bits(block[i], depth),
{
    lemma_tile_pixel_of_packed(block, depth, i % 8, i / 8);
    assert(8 * (i / 8) + i % 8 == i);
}

/// At eight bits per pixel, packing a block and unpacking the tile gives
/// the block back, whatever its pixels are.
pub proof fn lemma_unpack_packed(block: Seq<u8>)
    requires
        block.len() == 64,
    ensures
        unpacked(packed(block, BitsPerPixel::Eight), BitsPerPixel::Eight) == block,
{
    let back = unpacked(packed(block, BitsPerPixel::Eight), BitsPerPixel::Eight);
    assert forall|i: int| 0 <= i < 64 implies back[i] == block[i] by {
        lemma_unpack_packed_pixel(block, BitsPerPixel::Eight, i);
    }
    assert(back =~= block);
}

/// A tile as the console draws it under a mirroring: the tile of the
/// mirrored pixels.
pub open spec fn mirrored_tile(tile: Seq<u8>, depth: BitsPerPixel, mirror: Mirror) -> Seq<u8> {
    packed(mirrored(unpacked(tile, depth), mirror), depth)
}

proof fn lemma_kept_bits_decide_plane(p: u8, q: u8, plane: u8)
    by (bit_vector)
    requires
        plane < 8,
    ensures
        plane < 2 && p % 4 == q % 4 ==> plane_bit(p, plane) == plane_bit(q, plane),
        plane < 4 && p % 16 == q % 16 ==> plane_bit(p, plane) == plane_bit(q, plane),
        p % 4 % 4 == p % 4,
        p % 16 % 16 == p % 16,
{
}

/// What a depth keeps of a pixel, it keeps of that again.
pub proof fn lemma_kept_bits_twice(pixel: u8, depth: BitsPerPixel)
    ensures
        kept_bits(kept_bits(pixel, depth), depth) == kept_bits(pixel, depth),
{
    lemma_kept_bits_decide_plane(pixel, pixel, 0);
}

/// Two pixels of which a depth keeps the same have the same bit in every
/// plane of that depth.
proof fn lemma_kept_bits_decide_bit(p: u8, q: u8, depth: BitsPerPixel, plane: int)
    requires
        0 <= plane < depth.bits(),
        kept_bits(p, depth) == kept_bits(q, depth),
    ensures
        plane_bit(p, plane as u8) == plane_bit(q, plane as u8),
{
    lemma_kept_bits_decide_plane(p, q, plane as u8);
}

/// Two blocks of whose pixels a depth keeps the same have the same tile at
/// that depth.
pub proof fn lemma_kept_bits_decide_tile(a: Seq<u8>, b: Seq<u8>, depth: BitsPerPixel)
    requires
        a.len() == 64,
        b.len() == 64,
        forall|i: int| 0 <= i < 64 ==> kept_bits(#[trigger] a[i], depth) == kept_bits(b[i], depth),
    ensures
        packed(a, depth) == packed(b, depth),
{
    assert forall|k: int| 0 <= k < depth.tile_len() implies tile_byte(a, k) == tile_byte(b, k) by {
        let row = tile_row(k);
        let plane = tile_plane(k);
        assert(0 <= row < 8);
        assert(0 <= plane < depth.bits());
        assert forall|x: int| 0 <= x < 8 implies plane_bit(#[trigger] a[8 * row + x], plane as u8)
            == plane_bit(b[8 * row + x], plane as u8) by {
            lemma_kept_bits_decide_bit(a[8 * row + x], b[8 * row + x], depth, plane);
        }
        assert(plane_bit(a[8 * row + 0], plane as u8) == plane_bit(b[8 * row + 0], plane as u8));
        assert(plane_bit(a[8 * row + 1], plane as u8) == plane_bit(b[8 * row + 1], plane as u8));
        assert(plane_bit(a[8 * row + 2], plane as u8) == plane_bit(b[8 * row + 2], plane as u8));
        assert(plane_bit(a[8 * row + 3], plane as u8) == plane_bit(b[8 * row + 3], plane as u8));
        assert(plane_bit(a[8 * row + 4], plane as u8) == plane_bit(b[8 * row + 4], plane as u8));
        assert(plane_bit(a[8 * row + 5], plane as u8) == plane_bit(b[8 * row + 5], plane as u8));
        assert(plane_bit(a[8 * row + 6], plane as u8) == plane_bit(b[8 * row + 6], plane as u8));
        assert(plane_bit(a[8 * row + 7], plane as u8) == plane_bit(b[8 * row + 7], plane as u8));
    }
    assert(packed(a, depth) =~= packed(b, depth));
}

/// Two blocks with the same tile have the same tile under every mirroring.
pub proof fn lemma_equal_tiles_mirror_alike(
    a: Seq<u8>,
    b: Seq<u8>,
    depth: BitsPerPixel,
    mirror: Mirror,
)
    requires
        a.len() == 64,
        b.len() == 64,
        packed(a, depth) == packed(b, depth),
    ensures
        variant(a, depth, mirror) == variant(b, depth, mirror),
{
    let ma = mirrored(a, mirror);
    let mb = mirrored(b, mirror);
    assert forall|i: int| 0 <= i < 64 implies kept_bits(#[trigger] ma[i], depth) == kept_bits(
        mb[i],
        depth,
    ) by {
        let j = source_pixel(i, mirror);
        assert(0 <= j < 64);
        lemma_unpack_packed_pixel(a, depth, j);
        lemma_unpack_packed_pixel(b, depth, j);
    }
    lemma_kept_bits_decide_tile(ma, mb, depth);
}

/// The tile of a block under a mirroring is the block's tile as the
/// console draws it under that mirroring.
pub proof fn lemma_variant_is_mirrored_tile(block: Seq<u8>, depth: BitsPerPixel, mirror: Mirror)
    requires
        block.len() == 64,
    ensures
        mirrored_tile(packed(block, depth), depth, mirror) == variant(block, depth, mirror),
{
    let back = unpacked(packed(block, depth), depth);
    assert forall|i: int| 0 <= i < 64 implies kept_bits(#[trigger] back[i], depth) == kept_bits(
        block[i],
        depth,
    ) by {
        lemma_unpack_packed_pixel(block, depth, i);
        lemma_kept_bits_twice(block[i], depth);
    }
    lemma_kept_bits_decide_tile(back, block, depth);
    lemma_equal_tiles_mirror_alike(back, block, depth, mirror);
}

/// The tile of a mirrored block under a second mirroring is the tile of
/// the block under both.
pub proof fn lemma_variant_of_mirrored(
    block: Seq<u8>,
    depth: BitsPerPixel,
    first: Mirror,
    second: Mirror,
)
    requires
        block.len() == 64,
    ensures
        variant(mirrored(block, first), depth, second) == variant(
            block,
            depth,
            first.combined(second),
        ),
{
    lemma_mirrored_twice(block, first, second);
}

proof fn lemma_pixel_keeps_plane(
    b0: u8,
    b1: u8,
    b2: u8,
    b3: u8,
    b4: u8,
    b5: u8,
    b6: u8,
    b7: u8,
    column: u8,
    plane: u8,
)
    by (bit_vector)
    requires
        plane < 8,
        column < 8,
    ensures
        plane_bit(pixel_bits(b0, b1, b2, b3, b4, b5, b6, b7, column), plane) == column_bit(
            if plane == 0 {
                b0
            } else if plane == 1 {
                b1
            } else if plane == 2 {
                b2
            } else if plane == 3 {
                b3
            } else if plane == 4 {
                b4
            } else if plane == 5 {
                b5
            } else if plane == 6 {
                b6
            } else {
                b7
            },
            column,
        ),
{
}

proof fn lemma_bits_make_row(
    byte: u8,
    px0: u8,
    px1: u8,
    px2: u8,
    px3: u8,
    px4: u8,
    px5: u8,
    px6: u8,
    px7: u8,
    plane: u8,
)
    by (bit_vector)
    requires
        plane < 8,
        plane_bit(px0, plane) == column_bit(byte, 0),
        plane_bit(px1, plane) == column_bit(byte, 1),
        plane_bit(px2, plane) == column_bit(byte, 2),
        plane_bit(px3, plane) == column_bit(byte, 3),
        plane_bit(px4, plane) == column_bit(byte, 4),
        plane_bit(px5, plane) == column_bit(byte, 5),
        plane_bit(px6, plane) == column_bit(byte, 6),
        plane_bit(px7, plane) == column_bit(byte, 7),
    ensures
        row_bits(px0, px1, px2, px3, px4, px5, px6, px7, plane) == byte,
{
}

/// A pixel read from a tile has in each plane of the depth what the
/// plane's byte says of the pixel's column.
proof fn lemma_tile_pixel_plane(
    tile: Seq<u8>,
    depth: BitsPerPixel,
    column: int,
    row: int,
    plane: int,
)
    requires
        0 <= column < 8,
        0 <= plane < 8,
    ensures
        plane_bit(tile_pixel(tile, depth, column, row), plane as u8) == column_bit(
            plane_byte(tile, depth, plane, row),
            column as u8,
        ),
{
    lemma_pixel_keeps_plane(
        plane_byte(tile, depth, 0, row),
        plane_byte(tile, depth, 1, row),
        plane_byte(tile, depth, 2, row),
        plane_byte(tile, depth, 3, row),
        plane_byte(tile, depth, 4, row),
        plane_byte(tile, depth, 5, row),
        plane_byte(tile, depth, 6, row),
        plane_byte(tile, depth, 7, row),
        column as u8,
        plane as u8,
    );
}

/// The row of an unpacked tile packs, in a plane of the depth, to the byte
/// that the tile holds for that plane and row.
proof fn lemma_unpacked_row(tile: Seq<u8>, depth: BitsPerPixel, row: int, plane: int)
    requires
        0 <= row < 8,
        0 <= plane < depth.bits(),
    ensures
        plane_row(unpacked(tile, depth), row, plane) == tile[byte_index(plane, row)],
{
    let block = unpacked(tile, depth);
    assert forall|x: int| 0 <= x < 8 implies #[trigger] block[8 * row + x] == tile_pixel(
        tile,
        depth,
        x,
        row,
    ) by {
        assert((8 * row + x) % 8 == x && (8 * row + x) / 8 == row);
    }
    lemma_tile_pixel_plane(tile, depth, 0, row, plane);
    lemma_tile_pixel_plane(tile, depth, 1, row, plane);
    lemma_tile_pixel_plane(tile, depth, 2, row, plane);
    lemma_tile_pixel_plane(tile, depth, 3, row, plane);
    lemma_tile_pixel_plane(tile, depth, 4, row, plane);
    lemma_tile_pixel_plane(tile, depth, 5, row, plane);
    lemma_tile_pixel_plane(tile, depth, 6, row, plane);
    lemma_tile_pixel_plane(tile, depth, 7, row, plane);
    assert(block[8 * row] == block[8 * row + 0]);
    lemma_bits_make_row(
        plane_byte(tile, depth, plane, row),
        block[8 * row + 0],
        block[8 * row + 1],
        block[8 * row + 2],
        block[8 * row + 3],
        block[8 * row + 4],
        block[8 * row + 5],
        block[8 * row + 6],
        block[8 * row + 7],
        plane as u8,
    );
}

/// Unpacking a tile and packing the pixels gives the tile back: every
/// string of bytes of a tile's length is the tile of some block.
pub proof fn lemma_pack_unpacked(tile: Seq<u8>, depth: BitsPerPixel)
    requires
        tile.len() == depth.tile_len(),
    ensures
        packed(unpacked(tile, depth), depth) == tile,
{
    let block = unpacked(tile, depth);
    assert forall|k: int| 0 <= k < depth.tile_len() implies tile_byte(block, k) == tile[k] by {
        let row = tile_row(k);
        let plane = tile_plane(k);
        assert(0 <= row < 8);
        assert(0 <= plane < depth.bits());
        assert(byte_index(plane, row) == k);
        lemma_unpacked_row(tile, depth, row, plane);
    }
    assert(packed(block, depth) =~= tile);
}

/// Every pixel that a tile holds is below 4, 16 or 256, as the depth is:
/// the depth keeps all of it.
pub proof fn lemma_unpacked_is_kept(tile: Seq<u8>, depth: BitsPerPixel, i: int)
    requires
        tile.len() == depth.tile_len(),
        0 <= i < 64,
    ensures
        kept_bits(unpacked(tile, depth)[i], depth) == unpacked(tile, depth)[i],
{
    lemma_pack_unpacked(tile, depth);
    lemma_unpack_packed_pixel(unpacked(tile, depth), depth, i);
}

/// At a depth that serves a block, the tile and the palette number hold
/// the block: each pixel is the tile's pixel counted from the first value
/// of the palette.
pub proof fn lemma_tile_and_palette_hold_block(block: Seq<u8>, depth: BitsPerPixel, i: int)
    requires
        block.len() == 64,
        0 <= i < 64,
        serves(depth, block),
    ensures
        block[i] == palette_start(palette_select(block, depth), depth) + unpacked(
            packed(block, depth),
            depth,
        )[i],
{
    lemma_unpack_packed_pixel(block, depth, i);
    match depth {
        BitsPerPixel::Two => {
            assert(block[i] as int / 4 == block[0] as int / 4);
        },
        BitsPerPixel::Four => {
            assert(block[i] as int / 16 == block[0] as int / 16);
        },
        BitsPerPixel::Eight => {},
    }
}

} // verus!
