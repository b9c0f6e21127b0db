//! The tilemap: two bytes for each block of the image, which name the tile
//! that is drawn there, its palette and its mirroring.
//!
//! The low byte holds bits 0 to 7 of the tile index. The high byte holds
//! bits 8 and 9 of the index in its bits 0 and 1, the palette number from
//! bit 2 up, and the mirroring in bits 6 and 7.

use crate::mirror::Mirror;
use vstd::prelude::*;

verus! {

/// The number of tiles that a tilemap can name: the index has ten bits.
pub const TILE_LIMIT: usize = 0x400;

/// What `encode_tilemap` reports where an entry names a tile beyond the
/// limit.
pub const INVALID_TILEMAP: &'static str = "Invalid tilemap";

/// One cell of the tilemap.
#[derive(Debug, Clone, Copy, PartialEq, Eq, Structural, Hash)]
pub struct TilemapEntry {
    /// Index of the tile in the tile set.
    pub tile: usize,
    /// Which palette the tile is drawn with.
    pub palette: u8,
    /// How the tile is turned over.
    pub mirror: Mirror,
}

/// The low byte of an entry.
pub open spec fn entry_low(entry: TilemapEntry) -> u8 {
    (entry.tile % 256) as u8
}

/// The high byte of an entry whose tile index is below the limit. Palette
/// bits that do not fit into the byte are lost.
pub open spec fn entry_high(entry: TilemapEntry) -> u8 {
    ((entry.tile / 256) as u8) | (entry.palette << 2) | ((entry.mirror.code() as u8) << 6)
}

/// Every entry names a tile below the limit.
pub open spec fn all_in_range(entries: Seq<TilemapEntry>) -> bool {
    forall|i: int| 0 <= i < entries.len() ==> (#[trigger] entries[i]).tile < TILE_LIMIT
}

/// The bytes of a tilemap: low byte and high byte of each entry in turn.
pub open spec fn tilemap_bytes(entries: Seq<TilemapEntry>) -> Seq<u8> {
    Seq::new(
        2 * entries.len(),
        |i: int|
            if i % 2 == 0 {
                entry_low(entries[i / 2])
            } else {
                entry_high(entries[i / 2])
            },
    )
}

/// Packs one entry into its two bytes.
pub fn pack_entry(entry: TilemapEntry) -> (bytes: (u8, u8))
    requires
        entry.tile < TILE_LIMIT,
    ensures
        bytes.0 == entry_low(entry),
        bytes.1 == entry_high(entry),
{
    let index: usize = entry.tile;
    assert(index & 0xFF == index % 256 && index >> 8 == index / 256 && index >> 8 < 4)
        by (bit_vector)
        requires
            index < 0x400,
    ;
    let low: u8 = (index & 0xFF) as u8;
    let high: u8 = (index >> 8) as u8 | entry.palette << 2 | entry.mirror.bits() << 6;
    (low, high)
}

/// Packs the entries of a tilemap. Fails where any entry names a tile at
/// or beyond the limit; it says so when it has gone through all entries.
pub fn encode_tilemap(entries: &[TilemapEntry]) -> (res: Result<Vec<u8>, &'static str>)
    ensures
        match res {
            Ok(bytes) => all_in_range(entries@) && bytes@ == tilemap_bytes(entries@),
            Err(message) => !all_in_range(entries@) && message@ == INVALID_TILEMAP@,
        },
{
    let mut valid: bool = true;
    let mut bytes: Vec<u8> = Vec::new();
    for i in 0..entries.len()
        invariant
            valid <==> forall|j: int| 0 <= j < i ==> (#[trigger] entries@[j]).tile < TILE_LIMIT,
            valid ==> bytes@.len() == 2 * i,
            valid ==> forall|k: int|
                0 <= k < 2 * i ==> bytes@[k] == (if k % 2 == 0 {
                    entry_low(entries@[k / 2])
                } else {
                    entry_high(entries@[k / 2])
                }),
    {
        let entry: TilemapEntry = entries[i];
        if entry.tile >= TILE_LIMIT {
            valid = false;
        } else if valid {
            let (low, high) = pack_entry(entry);
            bytes.push(low);
            bytes.push(high);
        }
    }
    if valid {
        assert(bytes@ =~= tilemap_bytes(entries@));
        Ok(bytes)
    } else {
        Err(INVALID_TILEMAP)
    }
}

/// An entry whose palette number is below 16 can be read back from its
/// two bytes: the three fields do not overlap.
pub proof fn lemma_entry_reads_back(entry: TilemapEntry)
    requires
        entry.tile < TILE_LIMIT,
        entry.palette < 16,
    ensures
        entry_low(entry) + 256 * (entry_high(entry) & 3) == entry.tile,
        (entry_high(entry) >> 2) & 15 == entry.palette,
        entry_high(entry) >> 6 == entry.mirror.code(),
{
    let top: u8 = (entry.tile / 256) as u8;
    let palette: u8 = entry.palette;
    let flags: u8 = entry.mirror.code() as u8;
    assert({
        &&& (top | (palette << 2) | (flags << 6)) & 3 == top
        &&& ((top | (palette << 2) | (flags << 6)) >> 2) & 15 == palette
        &&& (top | (palette << 2) | (flags << 6)) >> 6 == flags
    }) by (bit_vector)
        requires
            top < 4,
            palette < 16,
            flags < 4,
    ;
}

} // verus!
