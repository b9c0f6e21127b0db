//! What holds of every encoding: that tiles and tilemap together show the
//! image, that deduplication leaves no tile twice, mirrored or not, and
//! that blocks which are mirror images of one another share a tile.

use crate::block::{
    lemma_depth_serves_blocks, palette_select, palette_start, required_depth, serves,
};
use crate::depth::BitsPerPixel;
use crate::mirror::{
    lemma_combined_cancels, lemma_mirrored_back, lemma_mirrored_plain, mirrored, source_pixel,
    Mirror,
};
use crate::pack::{packed, unpacked, variant};
use crate::roundtrip::{
    kept_bits, lemma_pack_unpacked, lemma_tile_and_palette_hold_block, lemma_unpack_packed_pixel,
    lemma_variant_is_mirrored_tile, lemma_variant_of_mirrored, mirrored_tile,
};
use crate::tilemap::{all_in_range, TilemapEntry, TILE_LIMIT};
use crate::tileset::{
    encoded_entries, encoded_tiles, first_match, lemma_encoding_shape, lemma_position_found,
    placed_entry, placed_tiles, reuses,
};
use vstd::prelude::*;

verus! {

/// Every block has 64 pixels, and there are no more blocks than a machine
/// can count.
pub open spec fn well_shaped(blocks: Seq<Seq<u8>>) -> bool {
    &&& blocks.len() <= usize::MAX
    &&& forall|n: int| 0 <= n < blocks.len() ==> (#[trigger] blocks[n]).len() == 64
}

/// The entry draws the block: it names a tile of the set which is the
/// block's tile under the entry's mirroring, and the block's palette.
pub open spec fn shows(
    tiles: Seq<Seq<u8>>,
    entry: TilemapEntry,
    block: Seq<u8>,
    depth: BitsPerPixel,
) -> bool {
    &&& entry.tile < tiles.len()
    &&& tiles[entry.tile as int] == variant(block, depth, entry.mirror)
    &&& entry.palette == palette_select(block, depth)
}

/// Block `n` brought tile `t` into the set: its entry names the tile and
/// draws it plain, and the tile is the block's own.
pub open spec fn introduces(
    blocks: Seq<Seq<u8>>,
    depth: BitsPerPixel,
    dedup: bool,
    n: int,
    t: int,
) -> bool {
    &&& 0 <= n < blocks.len()
    &&& encoded_entries(blocks, depth, dedup)[n].tile == t
    &&& encoded_entries(blocks, depth, dedup)[n].mirror == Mirror::Plain
    &&& encoded_tiles(blocks, depth, dedup)[t] == packed(blocks[n], depth)
}

/// Some block brought tile `t` into the set.
pub open spec fn drawn(blocks: Seq<Seq<u8>>, depth: BitsPerPixel, dedup: bool, t: int) -> bool {
    exists|n: int| #[trigger] introduces(blocks, depth, dedup, n, t)
}

/// No tile of the set is a later tile of the set as the console draws it
/// under any mirroring. As to draw plain is a mirroring, no tile occurs
/// twice.
pub open spec fn no_mirror_images(tiles: Seq<Seq<u8>>, depth: BitsPerPixel) -> bool {
    forall|i: int, j: int, mirror: Mirror|
        #![trigger tiles[i], mirrored_tile(tiles[j], depth, mirror)]
        0 <= i < j < tiles.len() ==> tiles[i] != mirrored_tile(tiles[j], depth, mirror)
}

/// An encoding goes on from the encoding of all blocks but the last: the
/// tiles and entries of those stay where they are.
proof fn lemma_encoding_grows(blocks: Seq<Seq<u8>>, depth: BitsPerPixel, dedup: bool)
    requires
        blocks.len() > 0,
        blocks.len() <= usize::MAX,
    ensures
        encoded_tiles(blocks, depth, dedup) == placed_tiles(
            encoded_tiles(blocks.drop_last(), depth, dedup),
            blocks.last(),
            depth,
            dedup,
        ),
        encoded_tiles(blocks.drop_last(), depth, dedup).len() <= encoded_tiles(
            blocks,
            depth,
            dedup,
        ).len(),
        forall|t: int|
            0 <= t < encoded_tiles(blocks.drop_last(), depth, dedup).len() ==> encoded_tiles(
                blocks,
                depth,
                dedup,
            )[t] == #[trigger] encoded_tiles(blocks.drop_last(), depth, dedup)[t],
        encoded_entries(blocks, depth, dedup).len() == blocks.len(),
        encoded_entries(blocks.drop_last(), depth, dedup).len() == blocks.len() - 1,
        forall|n: int|
            0 <= n < blocks.len() - 1 ==> encoded_entries(blocks, depth, dedup)[n]
                == #[trigger] encoded_entries(blocks.drop_last(), depth, dedup)[n],
        encoded_entries(blocks, depth, dedup)[blocks.len() - 1] == placed_entry(
            encoded_tiles(blocks.drop_last(), depth, dedup),
            blocks.last(),
            depth,
            dedup,
        ),
{
    lemma_encoding_shape(blocks, depth, dedup);
    lemma_encoding_shape(blocks.drop_last(), depth, dedup);
}

/// Every entry of an encoding draws its block.
pub proof fn lemma_entries_show_blocks(blocks: Seq<Seq<u8>>, depth: BitsPerPixel, dedup: bool)
    requires
        well_shaped(blocks),
    ensures
        forall|n: int|
            0 <= n < blocks.len() ==> shows(
                encoded_tiles(blocks, depth, dedup),
                #[trigger] encoded_entries(blocks, depth, dedup)[n],
                blocks[n],
                depth,
            ),
    decreases blocks.len(),
{
    if blocks.len() > 0 {
        let before = blocks.drop_last();
        let block = blocks.last();
        let old_tiles = encoded_tiles(before, depth, dedup);
        let old_entries = encoded_entries(before, depth, dedup);
        let tiles = encoded_tiles(blocks, depth, dedup);
        let entries = encoded_entries(blocks, depth, dedup);
        lemma_encoding_grows(blocks, depth, dedup);
        lemma_encoding_shape(before, depth, dedup);
        lemma_entries_show_blocks(before, depth, dedup);
        assert forall|n: int| 0 <= n < blocks.len() implies shows(
            tiles,
            #[trigger] entries[n],
            blocks[n],
            depth,
        ) by {
            if n < blocks.len() - 1 {
                assert(entries[n] == old_entries[n]);
                assert(before[n] == blocks[n]);
                assert(shows(old_tiles, old_entries[n], before[n], depth));
                assert(tiles[entries[n].tile as int] == old_tiles[entries[n].tile as int]);
            } else {
                assert(blocks[n] == block);
                assert(block.len() == 64);
                assert(entries[n] == placed_entry(old_tiles, block, depth, dedup));
                if reuses(old_tiles, block, depth, dedup) {
                    let mirror = first_match(old_tiles, block, depth)->0;
                    lemma_position_found(old_tiles, variant(block, depth, mirror));
                    assert(tiles == old_tiles);
                } else {
                    lemma_mirrored_plain(block);
                    assert(tiles == old_tiles.push(packed(block, depth)));
                    assert(entries[n].tile == old_tiles.len());
                }
            }
        }
    }
}

/// Pixel `i` of a block as the console draws it from a tilemap entry: the
/// entry's tile, unpacked and turned over as the entry says, counted from
/// the first value of the entry's palette.
pub open spec fn drawn_pixel(
    tiles: Seq<Seq<u8>>,
    entry: TilemapEntry,
    depth: BitsPerPixel,
    i: int,
) -> int {
    palette_start(entry.palette, depth) + mirrored(
        unpacked(tiles[entry.tile as int], depth),
        entry.mirror,
    )[i]
}

/// An entry that shows a block draws of each pixel what the depth keeps
/// of it, above the first value of the block's palette.
proof fn lemma_shown_block_is_drawn(
    tiles: Seq<Seq<u8>>,
    entry: TilemapEntry,
    block: Seq<u8>,
    depth: BitsPerPixel,
    i: int,
)
    requires
        block.len() == 64,
        0 <= i < 64,
        shows(tiles, entry, block, depth),
    ensures
        drawn_pixel(tiles, entry, depth, i) == palette_start(palette_select(block, depth), depth)
            + kept_bits(block[i], depth),
{
    let turned = mirrored(block, entry.mirror);
    let j = source_pixel(i, entry.mirror);
    assert(0 <= j < 64);
    lemma_unpack_packed_pixel(turned, depth, j);
    lemma_mirrored_back(block, entry.mirror);
    assert(mirrored(turned, entry.mirror)[i] == turned[j]);
}

/// Tiles and tilemap hold the image: at a depth that is at least the one
/// that the blocks need, every pixel of every block is the pixel that the
/// console draws from the block's entry.
pub proof fn lemma_encoding_holds_image(
    blocks: Seq<Seq<u8>>,
    depth: BitsPerPixel,
    dedup: bool,
    n: int,
    i: int,
)
    requires
        well_shaped(blocks),
        required_depth(blocks).bits() <= depth.bits(),
        0 <= n < blocks.len(),
        0 <= i < 64,
    ensures
        drawn_pixel(
            encoded_tiles(blocks, depth, dedup),
            encoded_entries(blocks, depth, dedup)[n],
            depth,
            i,
        ) == blocks[n][i],
{
    let tiles = encoded_tiles(blocks, depth, dedup);
    let entry = encoded_entries(blocks, depth, dedup)[n];
    lemma_entries_show_blocks(blocks, depth, dedup);
    assert(shows(tiles, entry, blocks[n], depth));
    lemma_shown_block_is_drawn(tiles, entry, blocks[n], depth, i);
    lemma_depth_serves_blocks(blocks, depth);
    assert(serves(depth, blocks[n]));
    lemma_tile_and_palette_hold_block(blocks[n], depth, i);
    lemma_unpack_packed_pixel(blocks[n], depth, i);
}

/// Every tile of an encoding was brought in by some block, whose entry
/// draws it plain.
pub proof fn lemma_every_tile_is_drawn(blocks: Seq<Seq<u8>>, depth: BitsPerPixel, dedup: bool)
    requires
        well_shaped(blocks),
    ensures
        forall|t: int|
            0 <= t < encoded_tiles(blocks, depth, dedup).len() ==> #[trigger] drawn(
                blocks,
                depth,
                dedup,
                t,
            ),
    decreases blocks.len(),
{
    if blocks.len() > 0 {
        let before = blocks.drop_last();
        let old_tiles = encoded_tiles(before, depth, dedup);
        let tiles = encoded_tiles(blocks, depth, dedup);
        lemma_encoding_grows(blocks, depth, dedup);
        lemma_encoding_shape(before, depth, dedup);
        lemma_every_tile_is_drawn(before, depth, dedup);
        assert forall|t: int| 0 <= t < tiles.len() implies #[trigger] drawn(
            blocks,
            depth,
            dedup,
            t,
        ) by {
            if t < old_tiles.len() {
                assert(drawn(before, depth, dedup, t));
                let n = choose|n: int| #[trigger] introduces(before, depth, dedup, n, t);
                assert(before[n] == blocks[n]);
                assert(encoded_entries(blocks, depth, dedup)[n] == encoded_entries(
                    before,
                    depth,
                    dedup,
                )[n]);
                assert(introduces(blocks, depth, dedup, n, t));
            } else {
                let block = blocks.last();
                assert(!reuses(old_tiles, block, depth, dedup));
                assert(tiles == old_tiles.push(packed(block, depth)));
                assert(t == old_tiles.len());
                assert(encoded_entries(blocks, depth, dedup)[blocks.len() - 1] == placed_entry(
                    old_tiles,
                    block,
                    depth,
                    dedup,
                ));
                assert(introduces(blocks, depth, dedup, blocks.len() - 1, t));
            }
        }
    }
}

/// A tilemap can name every tile of an encoding exactly when the encoding
/// has no more tiles than the limit.
pub proof fn lemma_tilemap_fits(blocks: Seq<Seq<u8>>, depth: BitsPerPixel, dedup: bool)
    requires
        well_shaped(blocks),
    ensures
        all_in_range(encoded_entries(blocks, depth, dedup)) <==> encoded_tiles(
            blocks,
            depth,
            dedup,
        ).len() <= TILE_LIMIT,
{
    let tiles = encoded_tiles(blocks, depth, dedup);
    let entries = encoded_entries(blocks, depth, dedup);
    lemma_encoding_shape(blocks, depth, dedup);
    lemma_every_tile_is_drawn(blocks, depth, dedup);
    if tiles.len() > TILE_LIMIT {
        assert(drawn(blocks, depth, dedup, TILE_LIMIT as int));
        let n = choose|n: int| #[trigger] introduces(blocks, depth, dedup, n, TILE_LIMIT as int);
        assert(entries[n].tile == TILE_LIMIT);
    } else {
        assert forall|n: int| 0 <= n < entries.len() implies (#[trigger] entries[n]).tile
            < TILE_LIMIT by {}
    }
}

/// With deduplication no tile of an encoding is a mirror image of another,
/// nor the same as another.
pub proof fn lemma_no_mirror_images(blocks: Seq<Seq<u8>>, depth: BitsPerPixel)
    requires
        well_shaped(blocks),
    ensures
        no_mirror_images(encoded_tiles(blocks, depth, true), depth),
    decreases blocks.len(),
{
    if blocks.len() > 0 {
        let before = blocks.drop_last();
        let block = blocks.last();
        let old_tiles = encoded_tiles(before, depth, true);
        let tiles = encoded_tiles(blocks, depth, true);
        lemma_encoding_grows(blocks, depth, true);
        lemma_no_mirror_images(before, depth);
        if !reuses(old_tiles, block, depth, true) {
            assert forall|i: int, j: int, mirror: Mirror|
                #![trigger tiles[i], mirrored_tile(tiles[j], depth, mirror)]
                0 <= i < j < tiles.len() implies tiles[i] != mirrored_tile(
                tiles[j],
                depth,
                mirror,
            ) by {
                if j < old_tiles.len() {
                    assert(tiles[i] == old_tiles[i]);
                    assert(tiles[j] == old_tiles[j]);
                    assert(old_tiles[i] != mirrored_tile(old_tiles[j], depth, mirror));
                } else {
                    assert(tiles[j] == packed(block, depth));
                    lemma_variant_is_mirrored_tile(block, depth, mirror);
                    assert(!old_tiles.contains(variant(block, depth, mirror)));
                    assert(old_tiles[i] == tiles[i]);
                }
            }
        }
    }
}

/// With deduplication the mirroring of an entry is the first, in the order
/// plain, horizontal, vertical, both, under which the block's tile is the
/// tile that the entry names.
pub proof fn lemma_first_mirroring(blocks: Seq<Seq<u8>>, depth: BitsPerPixel)
    requires
        well_shaped(blocks),
    ensures
        forall|n: int, mirror: Mirror|
            #![trigger encoded_entries(blocks, depth, true)[n], variant(blocks[n], depth, mirror)]
            0 <= n < blocks.len() && mirror.code() < encoded_entries(
                blocks,
                depth,
                true,
            )[n].mirror.code() ==> variant(blocks[n], depth, mirror) != encoded_tiles(
                blocks,
                depth,
                true,
            )[encoded_entries(blocks, depth, true)[n].tile as int],
    decreases blocks.len(),
{
    if blocks.len() > 0 {
        let before = blocks.drop_last();
        let block = blocks.last();
        let old_tiles = encoded_tiles(before, depth, true);
        let old_entries = encoded_entries(before, depth, true);
        let tiles = encoded_tiles(blocks, depth, true);
        let entries = encoded_entries(blocks, depth, true);
        lemma_encoding_grows(blocks, depth, true);
        lemma_encoding_shape(before, depth, true);
        lemma_first_mirroring(before, depth);
        assert forall|n: int, mirror: Mirror|
            #![trigger entries[n], variant(blocks[n], depth, mirror)]
            0 <= n < blocks.len() && mirror.code() < entries[n].mirror.code() implies variant(
            blocks[n],
            depth,
            mirror,
        ) != tiles[entries[n].tile as int] by {
            if n < blocks.len() - 1 {
                assert(entries[n] == old_entries[n]);
                assert(before[n] == blocks[n]);
                assert(old_entries[n].tile < old_tiles.len());
                assert(tiles[entries[n].tile as int] == old_tiles[old_entries[n].tile as int]);
                assert(variant(before[n], depth, mirror) != old_tiles[old_entries[n].tile as int]);
            } else {
                assert(blocks[n] == block);
                if reuses(old_tiles, block, depth, true) {
                    let found = first_match(old_tiles, block, depth)->0;
                    lemma_position_found(old_tiles, variant(block, depth, found));
                    assert(!old_tiles.contains(variant(block, depth, mirror)));
                    assert(tiles == old_tiles);
                }
            }
        }
    }
}

/// In a set without mirror images, two tiles that are both tiles of one
/// block, each under some mirroring, are one tile.
proof fn lemma_one_tile_per_block(
    tiles: Seq<Seq<u8>>,
    depth: BitsPerPixel,
    block: Seq<u8>,
    i: int,
    first: Mirror,
    j: int,
    second: Mirror,
)
    requires
        no_mirror_images(tiles, depth),
        block.len() == 64,
        0 <= i < tiles.len(),
        0 <= j < tiles.len(),
        tiles[i] == variant(block, depth, first),
        tiles[j] == variant(block, depth, second),
    ensures
        i == j,
{
    if i < j {
        lemma_tile_is_mirror_image(block, depth, first, second);
        assert(tiles[i] == mirrored_tile(tiles[j], depth, second.combined(first)));
    }
    if j < i {
        lemma_tile_is_mirror_image(block, depth, second, first);
        assert(tiles[j] == mirrored_tile(tiles[i], depth, first.combined(second)));
    }
}

/// The tile of a block under one mirroring is a mirror image of its tile
/// under another: the image under both mirrorings together.
proof fn lemma_tile_is_mirror_image(
    block: Seq<u8>,
    depth: BitsPerPixel,
    first: Mirror,
    second: Mirror,
)
    requires
        block.len() == 64,
    ensures
        variant(block, depth, first) == mirrored_tile(
            variant(block, depth, second),
            depth,
            second.combined(first),
        ),
{
    let turned = mirrored(block, second);
    let both = second.combined(first);
    lemma_variant_is_mirrored_tile(turned, depth, both);
    lemma_variant_of_mirrored(block, depth, second, both);
    lemma_combined_cancels(second, first);
}

/// With deduplication two blocks of which one is the other under some
/// mirroring are drawn with the same tile.
pub proof fn lemma_mirror_images_share_tile(
    blocks: Seq<Seq<u8>>,
    depth: BitsPerPixel,
    a: int,
    b: int,
    mirror: Mirror,
)
    requires
        well_shaped(blocks),
        0 <= a < blocks.len(),
        0 <= b < blocks.len(),
        blocks[b] == mirrored(blocks[a], mirror),
    ensures
        encoded_entries(blocks, depth, true)[a].tile == encoded_entries(
            blocks,
            depth,
            true,
        )[b].tile,
{
    let tiles = encoded_tiles(blocks, depth, true);
    let entries = encoded_entries(blocks, depth, true);
    lemma_entries_show_blocks(blocks, depth, true);
    lemma_no_mirror_images(blocks, depth);
    assert(shows(tiles, entries[a], blocks[a], depth));
    assert(shows(tiles, entries[b], blocks[b], depth));
    lemma_variant_of_mirrored(blocks[a], depth, mirror, entries[b].mirror);
    lemma_one_tile_per_block(
        tiles,
        depth,
        blocks[a],
        entries[a].tile as int,
        entries[a].mirror,
        entries[b].tile as int,
        mirror.combined(entries[b].mirror),
    );
}

/// With deduplication, where a block is drawn plain and a second block is
/// the first with left and right exchanged, the second is drawn with the
/// same tile, mirrored horizontally; but for a first block whose tile is
/// its own mirror image, which makes the second plain as well.
pub proof fn lemma_horizontal_image_is_flagged(
    blocks: Seq<Seq<u8>>,
    depth: BitsPerPixel,
    a: int,
    b: int,
)
    requires
        well_shaped(blocks),
        0 <= a < blocks.len(),
        0 <= b < blocks.len(),
        blocks[b] == mirrored(blocks[a], Mirror::Horizontal),
        encoded_entries(blocks, depth, true)[a].mirror == Mirror::Plain,
    ensures
        encoded_entries(blocks, depth, true)[b].tile == encoded_entries(
            blocks,
            depth,
            true,
        )[a].tile,
        encoded_entries(blocks, depth, true)[b].mirror == (if variant(
            blocks[a],
            depth,
            Mirror::Horizontal,
        ) == packed(blocks[a], depth) {
            Mirror::Plain
        } else {
            Mirror::Horizontal
        }),
{
    let tiles = encoded_tiles(blocks, depth, true);
    let entries = encoded_entries(blocks, depth, true);
    let first = blocks[a];
    let second = blocks[b];
    lemma_mirror_images_share_tile(blocks, depth, a, b, Mirror::Horizontal);
    lemma_entries_show_blocks(blocks, depth, true);
    lemma_first_mirroring(blocks, depth);
    assert(shows(tiles, entries[a], first, depth));
    assert(shows(tiles, entries[b], second, depth));
    let tile = tiles[entries[a].tile as int];
    lemma_mirrored_plain(first);
    assert(tile == packed(first, depth));
    // The second block under each mirroring, as a tile of the first.
    lemma_variant_of_mirrored(first, depth, Mirror::Horizontal, Mirror::Plain);
    lemma_variant_of_mirrored(first, depth, Mirror::Horizontal, Mirror::Horizontal);
    lemma_combined_cancels(Mirror::Horizontal, Mirror::Plain);
    assert(variant(second, depth, Mirror::Plain) == variant(first, depth, Mirror::Horizontal));
    assert(variant(second, depth, Mirror::Horizontal) == tile);
    if variant(first, depth, Mirror::Horizontal) == packed(first, depth) {
        if entries[b].mirror != Mirror::Plain {
            assert(Mirror::Plain.code() < entries[b].mirror.code());
            assert(variant(blocks[b], depth, Mirror::Plain) != tiles[entries[b].tile as int]);
        }
    } else {
        if entries[b].mirror != Mirror::Horizontal {
            if entries[b].mirror == Mirror::Plain {
                assert(tiles[entries[b].tile as int] == variant(second, depth, Mirror::Plain));
            } else {
                assert(Mirror::Horizontal.code() < entries[b].mirror.code());
                assert(variant(blocks[b], depth, Mirror::Horizontal) != tiles[entries[b].tile as int]);
            }
        }
    }
}

/// The blocks that a run of tiles holds, tile by tile.
pub open spec fn unpacked_all(tiles: Seq<Seq<u8>>, depth: BitsPerPixel) -> Seq<Seq<u8>> {
    Seq::new(tiles.len(), |t: int| unpacked(tiles[t], depth))
}

/// No block of the sequence has, under any mirroring, the tile of a block
/// before it.
pub open spec fn all_new(blocks: Seq<Seq<u8>>, depth: BitsPerPixel) -> bool {
    forall|i: int, j: int, mirror: Mirror|
        #![trigger packed(blocks[i], depth), variant(blocks[j], depth, mirror)]
        0 <= i < j < blocks.len() ==> packed(blocks[i], depth) != variant(
            blocks[j],
            depth,
            mirror,
        )
}

/// The tiles of the blocks, one for each, drawn plain.
pub open spec fn own_tiles(blocks: Seq<Seq<u8>>, depth: BitsPerPixel) -> Seq<Seq<u8>> {
    Seq::new(blocks.len(), |n: int| packed(blocks[n], depth))
}

/// The entries that draw each block plain with a tile of its own.
pub open spec fn own_entries(blocks: Seq<Seq<u8>>, depth: BitsPerPixel) -> Seq<TilemapEntry> {
    Seq::new(
        blocks.len(),
        |n: int|
            TilemapEntry {
                tile: n as usize,
                palette: palette_select(blocks[n], depth),
                mirror: Mirror::Plain,
            },
    )
}

/// Where no block matches an earlier one, deduplication removes nothing:
/// every block brings its own tile and is drawn plain.
pub proof fn lemma_new_blocks_keep_their_tiles(blocks: Seq<Seq<u8>>, depth: BitsPerPixel)
    requires
        blocks.len() <= usize::MAX,
        all_new(blocks, depth),
    ensures
        encoded_tiles(blocks, depth, true) == own_tiles(blocks, depth),
        encoded_entries(blocks, depth, true) == own_entries(blocks, depth),
    decreases blocks.len(),
{
    if blocks.len() > 0 {
        let before = blocks.drop_last();
        let block = blocks.last();
        let old_tiles = own_tiles(before, depth);
        assert(all_new(before, depth)) by {
            assert forall|i: int, j: int, mirror: Mirror|
                #![trigger packed(before[i], depth), variant(before[j], depth, mirror)]
                0 <= i < j < before.len() implies packed(before[i], depth) != variant(
                before[j],
                depth,
                mirror,
            ) by {
                assert(packed(blocks[i], depth) != variant(blocks[j], depth, mirror));
            }
        }
        lemma_new_blocks_keep_their_tiles(before, depth);
        assert forall|mirror: Mirror| !old_tiles.contains(
            #[trigger] variant(block, depth, mirror),
        ) by {
            if old_tiles.contains(variant(block, depth, mirror)) {
                let i = choose|i: int|
                    0 <= i < old_tiles.len() && old_tiles[i] == variant(block, depth, mirror);
                assert(packed(blocks[i], depth) != variant(
                    blocks[blocks.len() - 1],
                    depth,
                    mirror,
                ));
            }
        }
        assert(!old_tiles.contains(variant(block, depth, Mirror::Plain)));
        assert(!old_tiles.contains(variant(block, depth, Mirror::Horizontal)));
        assert(!old_tiles.contains(variant(block, depth, Mirror::Vertical)));
        assert(!old_tiles.contains(variant(block, depth, Mirror::Both)));
        assert(!reuses(old_tiles, block, depth, true));
        assert(old_tiles.push(packed(block, depth)) =~= own_tiles(blocks, depth));
        assert(own_entries(before, depth).push(placed_entry(old_tiles, block, depth, true))
            =~= own_entries(blocks, depth));
    } else {
        assert(own_tiles(blocks, depth) =~= Seq::<Seq<u8>>::empty());
        assert(own_entries(blocks, depth) =~= Seq::<TilemapEntry>::empty());
    }
}

/// Without deduplication every block brings its own tile and is drawn
/// plain.
pub proof fn lemma_without_dedup(blocks: Seq<Seq<u8>>, depth: BitsPerPixel)
    requires
        blocks.len() <= usize::MAX,
    ensures
        encoded_tiles(blocks, depth, false) == own_tiles(blocks, depth),
        encoded_entries(blocks, depth, false) == own_entries(blocks, depth),
    decreases blocks.len(),
{
    if blocks.len() > 0 {
        let before = blocks.drop_last();
        let block = blocks.last();
        let old_tiles = own_tiles(before, depth);
        lemma_without_dedup(before, depth);
        assert(old_tiles.push(packed(block, depth)) =~= own_tiles(blocks, depth));
        assert(own_entries(before, depth).push(placed_entry(old_tiles, block, depth, false))
            =~= own_entries(blocks, depth));
    } else {
        assert(own_tiles(blocks, depth) =~= Seq::<Seq<u8>>::empty());
        assert(own_entries(blocks, depth) =~= Seq::<TilemapEntry>::empty());
    }
}

/// Tiles of which none is a mirror image of another stay as they are when
/// their pixels are encoded again with deduplication.
pub proof fn lemma_tiles_encode_to_themselves(tiles: Seq<Seq<u8>>, depth: BitsPerPixel)
    requires
        tiles.len() <= usize::MAX,
        forall|t: int| 0 <= t < tiles.len() ==> (#[trigger] tiles[t]).len() == depth.tile_len(),
        no_mirror_images(tiles, depth),
    ensures
        encoded_tiles(unpacked_all(tiles, depth), depth, true) == tiles,
{
    let blocks = unpacked_all(tiles, depth);
    assert forall|t: int| 0 <= t < tiles.len() implies packed(#[trigger] blocks[t], depth)
        == tiles[t] by {
        lemma_pack_unpacked(tiles[t], depth);
    }
    assert forall|i: int, j: int, mirror: Mirror|
        #![trigger packed(blocks[i], depth), variant(blocks[j], depth, mirror)]
        0 <= i < j < blocks.len() implies packed(blocks[i], depth) != variant(
        blocks[j],
        depth,
        mirror,
    ) by {
        assert(variant(blocks[j], depth, mirror) == mirrored_tile(tiles[j], depth, mirror));
        assert(tiles[i] != mirrored_tile(tiles[j], depth, mirror));
    }
    lemma_new_blocks_keep_their_tiles(blocks, depth);
    assert(own_tiles(blocks, depth) =~= tiles);
}

/// Deduplication done twice does what it does once: the tiles that an
/// encoding with deduplication leaves are what encoding their own pixels
/// leaves, with deduplication again.
pub proof fn lemma_dedup_is_idempotent(blocks: Seq<Seq<u8>>, depth: BitsPerPixel)
    requires
        well_shaped(blocks),
    ensures
        encoded_tiles(
            unpacked_all(encoded_tiles(blocks, depth, true), depth),
            depth,
            true,
        ) == encoded_tiles(blocks, depth, true),
{
    lemma_encoding_shape(blocks, depth, true);
    lemma_no_mirror_images(blocks, depth);
    lemma_tiles_encode_to_themselves(encoded_tiles(blocks, depth, true), depth);
}

} // verus!
