//! Conversion of indexed-colour rasters into the planar tile format of a
//! 16-bit console: depth analysis, bit-plane packing, tile deduplication
//! under mirroring, tilemap packing and palette export.

pub mod block;
pub mod dedup;
pub mod depth;
pub mod image;
pub mod mirror;
pub mod pack;
pub mod palette;
pub mod roundtrip;
pub mod snes;
pub mod tilemap;
pub mod tileset;
