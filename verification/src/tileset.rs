//! The tile set: the tiles that an encoding has emitted so far, each one
//! once, and the rule by which a new block finds its tile among them.
//!
//! A tile's index is its position in the set. With deduplication a block
//! is held against the set as it is, then mirrored left to right, then top
//! to bottom, then both; the first of these that the set holds decides.

use crate::block::{palette_select, select_palette};
use crate::depth::BitsPerPixel;
use crate::mirror::Mirror;
use crate::pack::{pack_block, packed, variant};
use crate::tilemap::TilemapEntry;
use vstd::prelude::*;

verus! {

/// `index` is the first place at which the set holds the tile.
pub open spec fn is_first_at(tiles: Seq<Seq<u8>>, tile: Seq<u8>, index: int) -> bool {
    &&& 0 <= index < tiles.len()
    &&& tiles[index] == tile
    &&& forall|k: int| 0 <= k < index ==> tiles[k] != tile
}

/// The first place at which the set holds the tile; meaningful where the
/// set holds it at all.
pub open spec fn position(tiles: Seq<Seq<u8>>, tile: Seq<u8>) -> int {
    choose|index: int| is_first_at(tiles, tile, index)
}

/// The first mirroring, in the order plain, horizontal, vertical, both,
/// under which the set holds the block's tile.
pub open spec fn first_match(tiles: Seq<Seq<u8>>, block: Seq<u8>, depth: BitsPerPixel) -> Option<
    Mirror,
> {
    if tiles.contains(variant(block, depth, Mirror::Plain)) {
        Some(Mirror::Plain)
    } else if tiles.contains(variant(block, depth, Mirror::Horizontal)) {
        Some(Mirror::Horizontal)
    } else if tiles.contains(variant(block, depth, Mirror::Vertical)) {
        Some(Mirror::Vertical)
    } else if tiles.contains(variant(block, depth, Mirror::Both)) {
        Some(Mirror::Both)
    } else {
        None
    }
}

/// The block is drawn with a tile that the set holds already.
pub open spec fn reuses(tiles: Seq<Seq<u8>>, block: Seq<u8>, depth: BitsPerPixel, dedup: bool) -> bool {
    dedup && first_match(tiles, block, depth) is Some
}

/// The tile set after the block: unchanged where the block reuses a tile,
/// else longer by the block's own tile.
pub open spec fn placed_tiles(
    tiles: Seq<Seq<u8>>,
    block: Seq<u8>,
    depth: BitsPerPixel,
    dedup: bool,
) -> Seq<Seq<u8>> {
    if reuses(tiles, block, depth, dedup) {
        tiles
    } else {
        tiles.push(packed(block, depth))
    }
}

/// The tilemap entry of the block: the tile that it reuses with the
/// mirroring that matched, else the new tile drawn plain.
pub open spec fn placed_entry(
    tiles: Seq<Seq<u8>>,
    block: Seq<u8>,
    depth: BitsPerPixel,
    dedup: bool,
) -> TilemapEntry {
    if reuses(tiles, block, depth, dedup) {
        let mirror = first_match(tiles, block, depth)->0;
        TilemapEntry {
            tile: position(tiles, variant(block, depth, mirror)) as usize,
            palette: palette_select(block, depth),
            mirror,
        }
    } else {
        TilemapEntry {
            tile: tiles.len() as usize,
            palette: palette_select(block, depth),
            mirror: Mirror::Plain,
        }
    }
}

/// The tile set that a sequence of blocks leaves, taken in order.
pub open spec fn encoded_tiles(blocks: Seq<Seq<u8>>, depth: BitsPerPixel, dedup: bool) -> Seq<
    Seq<u8>,
>
    decreases blocks.len(),
{
    if blocks.len() == 0 {
        Seq::empty()
    } else {
        placed_tiles(encoded_tiles(blocks.drop_last(), depth, dedup), blocks.last(), depth, dedup)
    }
}

/// The tilemap entries of a sequence of blocks, one for each block.
pub open spec fn encoded_entries(blocks: Seq<Seq<u8>>, depth: BitsPerPixel, dedup: bool) -> Seq<
    TilemapEntry,
>
    decreases blocks.len(),
{
    if blocks.len() == 0 {
        Seq::empty()
    } else {
        encoded_entries(blocks.drop_last(), depth, dedup).push(
            placed_entry(
                encoded_tiles(blocks.drop_last(), depth, dedup),
                blocks.last(),
                depth,
                dedup,
            ),
        )
    }
}

/// Whether two byte strings are equal.
pub fn same_bytes(a: &[u8], b: &[u8]) -> (same: bool)
    ensures
        same == (a@ == b@),
{
    if a.len() != b.len() {
        return false;
    }
    for i in 0..a.len()
        invariant
            a@.len() == b@.len(),
            forall|j: int| 0 <= j < i ==> a@[j] == b@[j],
    {
        if a[i] != b[i] {
            return false;
        }
    }
    assert(a@ =~= b@);
    true
}

/// The tiles emitted so far, in the order of their indices. A tile is
/// looked for from the first place on: vstd gives a hash map no model for
/// keys that are byte vectors, so nothing could be proved of one.
pub struct TileSet {
    depth: BitsPerPixel,
    tiles: Vec<Vec<u8>>,
}

impl TileSet {
    /// The depth of every tile of the set.
    pub closed spec fn depth(&self) -> BitsPerPixel {
        self.depth
    }

    /// The tiles, each as its bytes.
    pub closed spec fn view(&self) -> Seq<Seq<u8>> {
        Seq::new(self.tiles@.len(), |i: int| self.tiles@[i]@)
    }

    /// An empty set for tiles of the given depth.
    pub fn new(depth: BitsPerPixel) -> (set: TileSet)
        ensures
            set.depth() == depth,
            set@ == Seq::<Seq<u8>>::empty(),
    {
        let set = TileSet { depth, tiles: Vec::new() };
        assert(set@ =~= Seq::<Seq<u8>>::empty());
        set
    }

    /// The number of tiles.
    pub fn len(&self) -> (n: usize)
        ensures
            n == self@.len(),
    {
        self.tiles.len()
    }

    /// Where the set holds the tile first, if it holds it.
    pub fn find(&self, tile: &[u8]) -> (found: Option<usize>)
        ensures
            match found {
                Some(index) => self@.contains(tile@) && index == position(self@, tile@)
                    && is_first_at(self@, tile@, index as int),
                None => !self@.contains(tile@),
            },
    {
        for i in 0..self.tiles.len()
            invariant
                forall|k: int| 0 <= k < i ==> self@[k] != tile@,
        {
            if same_bytes(self.tiles[i].as_slice(), tile) {
                proof {
                    assert(self@[i as int] == tile@);
                    assert(is_first_at(self@, tile@, i as int));
                    lemma_first_is_position(self@, tile@, i as int);
                }
                return Some(i);
            }
        }
        None
    }

    /// Finds the tile of a block: with `dedup`, the tile that the set holds
    /// for the block under the first mirroring that matches; else, or where
    /// none matches, the block's own tile, which joins the set.
    pub fn place(&mut self, block: &[u8], dedup: bool) -> (entry: TilemapEntry)
        requires
            block@.len() == 64,
        ensures
            final(self).depth() == old(self).depth(),
            final(self)@ == placed_tiles(old(self)@, block@, old(self).depth(), dedup),
            entry == placed_entry(old(self)@, block@, old(self).depth(), dedup),
    {
        let depth: BitsPerPixel = self.depth;
        let palette: u8 = select_palette(block, depth);
        let plain: Vec<u8> = pack_block(block, depth, Mirror::Plain);
        proof {
            crate::mirror::lemma_mirrored_plain(block@);
        }
        if dedup {
            if let Some(index) = self.find(plain.as_slice()) {
                return TilemapEntry { tile: index, palette, mirror: Mirror::Plain };
            }
            let across: Vec<u8> = pack_block(block, depth, Mirror::Horizontal);
            if let Some(index) = self.find(across.as_slice()) {
                return TilemapEntry { tile: index, palette, mirror: Mirror::Horizontal };
            }
            let down: Vec<u8> = pack_block(block, depth, Mirror::Vertical);
            if let Some(index) = self.find(down.as_slice()) {
                return TilemapEntry { tile: index, palette, mirror: Mirror::Vertical };
            }
            let turned: Vec<u8> = pack_block(block, depth, Mirror::Both);
            if let Some(index) = self.find(turned.as_slice()) {
                return TilemapEntry { tile: index, palette, mirror: Mirror::Both };
            }
        }
        let index: usize = self.tiles.len();
        self.tiles.push(plain);
        assert(self@ =~= old(self)@.push(packed(block@, depth)));
        TilemapEntry { tile: index, palette, mirror: Mirror::Plain }
    }

    /// The bytes of all tiles, one tile after the other.
    pub fn into_bytes(self) -> (bytes: Vec<u8>)
        ensures
            bytes@ == self@.flatten(),
    {
        let mut bytes: Vec<u8> = Vec::new();
        for i in 0..self.tiles.len()
            invariant
                bytes@ == self@.take(i as int).flatten(),
        {
            let ghost before = bytes@;
            bytes.extend_from_slice(self.tiles[i].as_slice());
            proof {
                assert(bytes@ =~= before + self@[i as int]);
                assert(self@.take(i + 1) =~= self@.take(i as int).push(self@[i as int]));
                self@.take(i as int).lemma_flatten_push(self@[i as int]);
            }
        }
        assert(self@.take(self.tiles.len() as int) =~= self@);
        bytes
    }
}

/// A place that is the first to hold a tile is the tile's position.
pub proof fn lemma_first_is_position(tiles: Seq<Seq<u8>>, tile: Seq<u8>, index: int)
    requires
        is_first_at(tiles, tile, index),
    ensures
        tiles.contains(tile),
        position(tiles, tile) == index,
{
    let other = position(tiles, tile);
    assert(is_first_at(tiles, tile, other));
    if other < index {
        assert(tiles[other] != tile);
    }
    if index < other {
        assert(tiles[index] != tile);
    }
}

/// A set that holds a tile holds it at some first place, and that place
/// is the tile's position.
pub proof fn lemma_position_found(tiles: Seq<Seq<u8>>, tile: Seq<u8>)
    requires
        tiles.contains(tile),
    ensures
        is_first_at(tiles, tile, position(tiles, tile)),
{
    let some = choose|i: int| 0 <= i < tiles.len() && tiles[i] == tile;
    lemma_first_before(tiles, tile, some);
}

proof fn lemma_first_before(tiles: Seq<Seq<u8>>, tile: Seq<u8>, upto: int)
    requires
        0 <= upto < tiles.len(),
        tiles[upto] == tile,
    ensures
        exists|index: int| is_first_at(tiles, tile, index),
    decreases upto,
{
    if exists|k: int| 0 <= k < upto && tiles[k] == tile {
        let k = choose|k: int| 0 <= k < upto && tiles[k] == tile;
        lemma_first_before(tiles, tile, k);
    } else {
        assert(is_first_at(tiles, tile, upto));
    }
}

/// The bytes of tiles that all have one length are that length times the
/// number of tiles.
pub proof fn lemma_flatten_len(tiles: Seq<Seq<u8>>, size: nat)
    requires
        forall|t: int| 0 <= t < tiles.len() ==> (#[trigger] tiles[t]).len() == size,
    ensures
        tiles.flatten().len() == tiles.len() * size,
    decreases tiles.len(),
{
    if tiles.len() > 0 {
        let rest = tiles.drop_first();
        assert forall|t: int| 0 <= t < rest.len() implies (#[trigger] rest[t]).len() == size by {
            assert(rest[t] == tiles[t + 1]);
        }
        lemma_flatten_len(rest, size);
        assert(tiles.len() * size == size + rest.len() * size) by (nonlinear_arith)
            requires
                tiles.len() == rest.len() + 1,
        ;
    } else {
        assert(tiles.len() * size == 0) by (nonlinear_arith)
            requires
                tiles.len() == 0,
        ;
    }
}

/// The shape of an encoding: one entry for each block; no more tiles than
/// blocks, and as many where nothing is deduplicated; every tile of the
/// length that the depth gives; every entry naming a tile of the set.
pub proof fn lemma_encoding_shape(blocks: Seq<Seq<u8>>, depth: BitsPerPixel, dedup: bool)
    requires
        blocks.len() <= usize::MAX,
    ensures
        encoded_entries(blocks, depth, dedup).len() == blocks.len(),
        encoded_tiles(blocks, depth, dedup).len() <= blocks.len(),
        !dedup ==> encoded_tiles(blocks, depth, dedup).len() == blocks.len(),
        forall|t: int|
            0 <= t < encoded_tiles(blocks, depth, dedup).len() ==> (#[trigger] encoded_tiles(
                blocks,
                depth,
                dedup,
            )[t]).len() == depth.tile_len(),
        forall|n: int|
            0 <= n < blocks.len() ==> (#[trigger] encoded_entries(blocks, depth, dedup)[n]).tile
                < encoded_tiles(blocks, depth, dedup).len(),
    decreases blocks.len(),
{
    if blocks.len() > 0 {
        let before = blocks.drop_last();
        let block = blocks.last();
        lemma_encoding_shape(before, depth, dedup);
        let tiles = encoded_tiles(before, depth, dedup);
        let entry = placed_entry(tiles, block, depth, dedup);
        if reuses(tiles, block, depth, dedup) {
            let mirror = first_match(tiles, block, depth)->0;
            lemma_position_found(tiles, variant(block, depth, mirror));
        }
        assert(entry.tile < placed_tiles(tiles, block, depth, dedup).len());
    }
}

} // verus!
