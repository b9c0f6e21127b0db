//! An indexed-colour image, cut into 8×8 blocks, and its encoding into
//! tiles and a tilemap.

use crate::block::{blocks_of, depth_of_block, lemma_required_depth_push, required_depth};
use crate::dedup::{lemma_tilemap_fits, well_shaped};
pub use crate::depth::BitsPerPixel;
use crate::snes::gfx::{console_color, Color, SNESColor};
use crate::tilemap::{
    all_in_range, encode_tilemap, tilemap_bytes, TilemapEntry, INVALID_TILEMAP, TILE_LIMIT,
};
use crate::tileset::{
    encoded_entries, encoded_tiles, lemma_encoding_shape, lemma_flatten_len, TileSet,
};
use vstd::prelude::*;

verus! {

/// What a constructor or a format check reports of an image that is not
/// in indexed colour.
pub const NOT_INDEXED: &'static str = "Color type of the PNG file must be Indexed Color.";

/// What is reported of an image whose width or height is not a whole
/// number of blocks, or is zero.
pub const NOT_ALIGNED: &'static str = "Width and height of the image must be multiples of 8.";

/// What `convert_to` reports of a depth below the one that the image needs.
pub const INVALID_BPP: &'static str = "Invalid bpp specified.";

/// How a decoded image stores its pixels.
#[derive(Debug, Clone, Copy, PartialEq, Eq, Structural, Hash)]
pub enum ColorType {
    Grayscale,
    RGB,
    Indexed,
    GrayscaleAlpha,
    RGBA,
}

/// The image as a value: its pixels row by row, its size in pixels and its
/// palette.
pub struct Raster {
    pub pixels: Seq<u8>,
    pub width: nat,
    pub height: nat,
    pub palette: Seq<SNESColor>,
}

/// The size is a whole number of blocks in each direction, and not zero.
pub open spec fn block_aligned(width: nat, height: nat) -> bool {
    width > 0 && height > 0 && width % 8 == 0 && height % 8 == 0
}

impl Raster {
    /// The size is a whole number of blocks, there is one pixel for each
    /// place, the palette has at most 256 colours and every pixel names
    /// one of them.
    pub open spec fn valid(self) -> bool {
        &&& block_aligned(self.width, self.height)
        &&& self.pixels.len() == self.width * self.height
        &&& self.palette.len() <= 256
        &&& forall|i: int|
            0 <= i < self.pixels.len() ==> (#[trigger] self.pixels[i]) < self.palette.len()
    }

    /// The blocks of the image in raster order.
    pub open spec fn blocks(self) -> Seq<Seq<u8>> {
        blocks_of(self.pixels, self.width as int, self.height as int)
    }

    /// The least depth that the image can be encoded at.
    pub open spec fn depth(self) -> BitsPerPixel {
        required_depth(self.blocks())
    }

    /// The number of blocks.
    pub open spec fn block_count(self) -> nat {
        (self.width / 8) * (self.height / 8)
    }

    /// The tiles of the image at the given depth, in the order of their
    /// indices.
    pub open spec fn tiles(self, depth: BitsPerPixel, dedup: bool) -> Seq<Seq<u8>> {
        encoded_tiles(self.blocks(), depth, dedup)
    }

    /// The tilemap entries of the image at the given depth, one for each
    /// block in raster order.
    pub open spec fn entries(self, depth: BitsPerPixel, dedup: bool) -> Seq<TilemapEntry> {
        encoded_entries(self.blocks(), depth, dedup)
    }
}

/// The encoding of an image goes by its pixels and its size alone: two
/// images that agree in these have the same least depth, the same tiles
/// and the same tilemap entries, at every depth, with deduplication and
/// without, whatever their palettes are.
pub proof fn lemma_encoding_goes_by_pixels(
    one: Raster,
    other: Raster,
    depth: BitsPerPixel,
    dedup: bool,
)
    requires
        one.pixels == other.pixels,
        one.width == other.width,
        one.height == other.height,
    ensures
        one.depth() == other.depth(),
        one.tiles(depth, dedup) == other.tiles(depth, dedup),
        one.tiles(depth, dedup).flatten() == other.tiles(depth, dedup).flatten(),
        one.entries(depth, dedup) == other.entries(depth, dedup),
        tilemap_bytes(one.entries(depth, dedup)) == tilemap_bytes(other.entries(depth, dedup)),
{
}

/// The palette that a run of RGB bytes stands for: three bytes, red, green
/// and blue, for each colour.
pub open spec fn palette_of(rgb: Seq<u8>) -> Seq<SNESColor> {
    Seq::new(
        rgb.len() / 3,
        |i: int| console_color(Color(rgb[3 * i], rgb[3 * i + 1], rgb[3 * i + 2])),
    )
}

/// The depth that an encoding is made at: the one asked for, else the
/// least that the image can have.
pub open spec fn chosen_depth(asked: Option<BitsPerPixel>, least: BitsPerPixel) -> BitsPerPixel {
    match asked {
        Some(depth) => depth,
        None => least,
    }
}

/// Tells whether an image of the given kind and size can be encoded at
/// all: it must be in indexed colour, and its size a whole number of blocks.
pub fn check_format(color_type: ColorType, width: u32, height: u32) -> (res: Result<
    (),
    &'static str,
>)
    ensures
        match res {
            Ok(_) => color_type == ColorType::Indexed && block_aligned(width as nat, height as nat),
            Err(message) => if color_type != ColorType::Indexed {
                message@ == NOT_INDEXED@
            } else {
                !block_aligned(width as nat, height as nat) && message@ == NOT_ALIGNED@
            },
        },
{
    match color_type {
        ColorType::Indexed => {},
        _ => {
            return Err(NOT_INDEXED);
        },
    }
    if width == 0 || height == 0 || width % 8 != 0 || height % 8 != 0 {
        return Err(NOT_ALIGNED);
    }
    Ok(())
}

/// Turns the RGB bytes of a palette into console colours.
pub fn convert_palette(rgb: &[u8]) -> (palette: Vec<SNESColor>)
    requires
        rgb@.len() % 3 == 0,
    ensures
        palette@ == palette_of(rgb@),
{
    let total: usize = rgb.len();
    let count: usize = total / 3;
    let mut palette: Vec<SNESColor> = Vec::with_capacity(count);
    for i in 0..count
        invariant
            total == rgb@.len(),
            total == 3 * count,
            palette@.len() == i,
            forall|j: int|
                0 <= j < i ==> palette@[j] == console_color(
                    Color(rgb@[3 * j], rgb@[3 * j + 1], rgb@[3 * j + 2]),
                ),
    {
        let color = Color(rgb[3 * i], rgb[3 * i + 1], rgb[3 * i + 2]);
        palette.push(SNESColor::from(color));
    }
    assert(palette@ =~= palette_of(rgb@));
    palette
}

/// Copies block `n`, counted in raster order, out of the pixels of an image.
pub fn copy_block(buffer: &[u8], width: usize, height: usize, n: usize) -> (block: Vec<u8>)
    requires
        width % 8 == 0,
        height % 8 == 0,
        buffer@.len() == width * height,
        n < (width / 8) * (height / 8),
    ensures
        block@ == blocks_of(buffer@, width as int, height as int)[n as int],
        block@.len() == 64,
{
    let total: usize = buffer.len();
    let across: usize = width / 8;
    assert(across > 0 && n / across < height / 8) by (nonlinear_arith)
        requires
            across == width / 8,
            n < across * (height / 8),
    ;
    let bx: usize = n % across;
    let by: usize = n / across;
    let mut block: Vec<u8> = Vec::with_capacity(64);
    for i in 0..64usize
        invariant
            width % 8 == 0,
            height % 8 == 0,
            buffer@.len() == width * height,
            total == width * height,
            bx < width / 8,
            by < height / 8,
            block@.len() == i,
            forall|j: int|
                0 <= j < i ==> block@[j] == buffer@[(8 * by + j / 8) * width + 8 * bx + j % 8],
    {
        let row: usize = 8 * by + i / 8;
        let column: usize = 8 * bx + i % 8;
        assert(0 <= row * width && row * width + column < width * height) by (nonlinear_arith)
            requires
                row < height,
                column < width,
        ;
        block.push(buffer[row * width + column]);
    }
    assert(block@ =~= blocks_of(buffer@, width as int, height as int)[n as int]);
    block
}

/// An image in indexed colour whose size is a whole number of blocks,
/// with the least depth that it can be encoded at.
pub struct Image {
    buffer: Vec<u8>,
    plte: Vec<SNESColor>,
    width: u32,
    height: u32,
    bpp: BitsPerPixel,
}

impl Image {
    /// The image as a value.
    pub closed spec fn view(&self) -> Raster {
        Raster {
            pixels: self.buffer@,
            width: self.width as nat,
            height: self.height as nat,
            palette: self.plte@,
        }
    }

    #[verifier::type_invariant]
    spec fn well_formed(&self) -> bool {
        &&& self@.valid()
        &&& self.bpp == self@.depth()
    }

    /// Makes an image from what a decoder hands over: the size in pixels,
    /// one palette index for each pixel, row by row, and the palette as
    /// RGB bytes. Fails where the size is not a whole number of blocks.
    pub fn new(width: u32, height: u32, buffer: Vec<u8>, palette: &[u8]) -> (res: Result<
        Image,
        &'static str,
    >)
        requires
            block_aligned(width as nat, height as nat) ==> {
                &&& buffer@.len() == width * height
                &&& palette@.len() % 3 == 0
                &&& palette@.len() / 3 <= 256
                &&& forall|i: int|
                    0 <= i < buffer@.len() ==> (#[trigger] buffer@[i]) < palette@.len() / 3
            },
        ensures
            match res {
                Ok(image) => {
                    &&& block_aligned(width as nat, height as nat)
                    &&& image@.valid()
                    &&& image@.pixels == buffer@
                    &&& image@.width == width
                    &&& image@.height == height
                    &&& image@.palette == palette_of(palette@)
                },
                Err(message) => !block_aligned(width as nat, height as nat) && message@
                    == NOT_ALIGNED@,
            },
    {
        if width == 0 || height == 0 || width % 8 != 0 || height % 8 != 0 {
            return Err(NOT_ALIGNED);
        }
        let plte: Vec<SNESColor> = convert_palette(palette);
        let bpp: BitsPerPixel = Image::analyze_bpp(
            buffer.as_slice(),
            width as usize,
            height as usize,
        );
        Ok(Image { buffer, plte, width, height, bpp })
    }

    /// The least depth at which every block of the image keeps its pixels
    /// apart.
    pub fn analyze_bpp(buffer: &[u8], width: usize, height: usize) -> (depth: BitsPerPixel)
        requires
            width % 8 == 0,
            height % 8 == 0,
            buffer@.len() == width * height,
        ensures
            depth == required_depth(blocks_of(buffer@, width as int, height as int)),
    {
        let total: usize = buffer.len();
        assert((width / 8) * (height / 8) <= width * height) by (nonlinear_arith);
        let count: usize = (width / 8) * (height / 8);
        let ghost blocks = blocks_of(buffer@, width as int, height as int);
        let mut min_bpp: BitsPerPixel = BitsPerPixel::Two;
        assert(blocks.take(0) =~= Seq::<Seq<u8>>::empty());
        for n in 0..count
            invariant
                width % 8 == 0,
                height % 8 == 0,
                buffer@.len() == width * height,
                count == (width / 8) * (height / 8),
                blocks == blocks_of(buffer@, width as int, height as int),
                blocks.len() == count,
                min_bpp == required_depth(blocks.take(n as int)),
        {
            let block: Vec<u8> = copy_block(buffer, width, height, n);
            let bpp: BitsPerPixel = depth_of_block(block.as_slice());
            proof {
                assert(blocks.take(n + 1) =~= blocks.take(n as int).push(blocks[n as int]));
                lemma_required_depth_push(blocks.take(n as int), blocks[n as int]);
            }
            if min_bpp < bpp {
                min_bpp = bpp;
            }
        }
        assert(blocks.take(count as int) =~= blocks);
        min_bpp
    }

    /// The least depth that the image can be encoded at.
    pub fn bpp(&self) -> (depth: BitsPerPixel)
        ensures
            depth == self@.depth(),
    {
        proof {
            use_type_invariant(self);
        }
        self.bpp
    }

    /// The width in pixels.
    pub fn width(&self) -> (width: u32)
        ensures
            width == self@.width,
    {
        self.width
    }

    /// The height in pixels.
    pub fn height(&self) -> (height: u32)
        ensures
            height == self@.height,
    {
        self.height
    }

    /// The palette, in the order of the indices.
    pub fn get_palettes(&self) -> (palette: &Vec<SNESColor>)
        ensures
            palette@ == self@.palette,
    {
        &self.plte
    }

    /// Encodes every block of the image at the given depth, in raster
    /// order: the bytes of the tiles, and one tilemap entry for each block.
    pub fn encode(&self, depth: BitsPerPixel, dedup: bool) -> (out: (Vec<u8>, Vec<TilemapEntry>))
        ensures
            out.0@ == self@.tiles(depth, dedup).flatten(),
            out.1@ == self@.entries(depth, dedup),
            out.0@.len() == self@.tiles(depth, dedup).len() * depth.tile_len(),
            out.0@.len() <= self@.block_count() * depth.tile_len(),
            out.1@.len() == self@.block_count(),
            self@.tiles(depth, dedup).len() <= self@.block_count(),
            !dedup ==> self@.tiles(depth, dedup).len() == self@.block_count(),
            well_shaped(self@.blocks()),
    {
        proof {
            use_type_invariant(self);
        }
        let width: usize = self.width as usize;
        let height: usize = self.height as usize;
        let total: usize = self.buffer.len();
        assert((width / 8) * (height / 8) <= width * height) by (nonlinear_arith);
        let count: usize = (width / 8) * (height / 8);
        let ghost blocks = self@.blocks();
        let mut set: TileSet = TileSet::new(depth);
        let mut entries: Vec<TilemapEntry> = Vec::new();
        assert(blocks.take(0) =~= Seq::<Seq<u8>>::empty());
        for n in 0..count
            invariant
                width % 8 == 0,
                height % 8 == 0,
                self.buffer@.len() == width * height,
                count == (width / 8) * (height / 8),
                blocks == blocks_of(self.buffer@, width as int, height as int),
                blocks.len() == count,
                set.depth() == depth,
                set@ == encoded_tiles(blocks.take(n as int), depth, dedup),
                entries@ == encoded_entries(blocks.take(n as int), depth, dedup),
        {
            let block: Vec<u8> = copy_block(self.buffer.as_slice(), width, height, n);
            proof {
                assert(blocks.take(n + 1).drop_last() =~= blocks.take(n as int));
                assert(blocks.take(n + 1).last() == blocks[n as int]);
            }
            let entry: TilemapEntry = set.place(block.as_slice(), dedup);
            entries.push(entry);
        }
        assert(blocks.take(count as int) =~= blocks);
        proof {
            lemma_encoding_shape(blocks, depth, dedup);
            lemma_flatten_len(encoded_tiles(blocks, depth, dedup), depth.tile_len());
            assert(encoded_tiles(blocks, depth, dedup).len() * depth.tile_len() <= count
                * depth.tile_len()) by (nonlinear_arith)
                requires
                    encoded_tiles(blocks, depth, dedup).len() <= count,
            ;
        }
        (set.into_bytes(), entries)
    }

    /// Encodes the image: the bytes of its tiles and, where asked for, its
    /// tilemap. Without a depth the image is encoded at the least depth
    /// that it can have; a lesser depth is refused before anything is
    /// encoded. The tilemap fails, and the tiles stand, where there are
    /// more tiles than a tilemap can name.
    pub fn convert_to(&self, bpp: Option<BitsPerPixel>, dedup: bool, export_tilemap: bool) -> (res:
        Result<(Vec<u8>, Option<Result<Vec<u8>, &'static str>>), &'static str>)
        ensures
            match res {
                Err(message) => {
                    &&& bpp is Some
                    &&& bpp->0.bits() < self@.depth().bits()
                    &&& message@ == INVALID_BPP@
                },
                Ok((tiles, tilemap)) => {
                    let depth = chosen_depth(bpp, self@.depth());
                    let entries = self@.entries(depth, dedup);
                    let count = self@.tiles(depth, dedup).len();
                    &&& depth.bits() >= self@.depth().bits()
                    &&& tiles@ == self@.tiles(depth, dedup).flatten()
                    &&& tiles@.len() == count * depth.tile_len()
                    &&& count <= self@.block_count()
                    &&& tiles@.len() <= self@.block_count() * depth.tile_len()
                    &&& !dedup ==> tiles@.len() == self@.block_count() * depth.tile_len()
                    &&& all_in_range(entries) <==> count <= TILE_LIMIT
                    &&& match tilemap {
                        None => !export_tilemap,
                        Some(Ok(bytes)) => {
                            &&& export_tilemap
                            &&& all_in_range(entries)
                            &&& bytes@ == tilemap_bytes(entries)
                        },
                        Some(Err(message)) => {
                            &&& export_tilemap
                            &&& !all_in_range(entries)
                            &&& message@ == INVALID_TILEMAP@
                        },
                    }
                },
            },
    {
        proof {
            use_type_invariant(self);
        }
        let depth: BitsPerPixel = match bpp {
            Some(asked) => {
                if asked < self.bpp {
                    return Err(INVALID_BPP);
                }
                asked
            },
            None => self.bpp,
        };
        let (tiles, entries) = self.encode(depth, dedup);
        proof {
            lemma_tilemap_fits(self@.blocks(), depth, dedup);
        }
        let tilemap: Option<Result<Vec<u8>, &'static str>> = if export_tilemap {
            Some(encode_tilemap(entries.as_slice()))
        } else {
            None
        };
        Ok((tiles, tilemap))
    }
}

} // verus!
