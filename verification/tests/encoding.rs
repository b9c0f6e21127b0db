use snesgfx::snes::gfx::SNESColor;
use snesgfx::depth::BitsPerPixel;
use snesgfx::image::{check_format, convert_palette, ColorType, Image};
use snesgfx::mirror::Mirror;
use snesgfx::pack::pack_block;
use snesgfx::tilemap::TilemapEntry;

fn grey_palette(entries: usize) -> Vec<u8> {
    let mut rgb = Vec::new();
    for i in 0..entries {
        rgb.push(i as u8);
        rgb.push(i as u8);
        rgb.push(i as u8);
    }
    rgb
}

fn image(width: u32, height: u32, buffer: Vec<u8>) -> Image {
    Image::new(width, height, buffer, &grey_palette(256)).unwrap()
}

/// An image of the given blocks side by side.
fn row_of_blocks(blocks: &[Vec<u8>]) -> Image {
    let width = 8 * blocks.len();
    let mut buffer = vec![0u8; 8 * width];
    for (n, block) in blocks.iter().enumerate() {
        for y in 0..8 {
            for x in 0..8 {
                buffer[y * width + 8 * n + x] = block[8 * y + x];
            }
        }
    }
    image(width as u32, 8, buffer)
}

fn checkerboard() -> Vec<u8> {
    let mut block = vec![0u8; 64];
    for y in 0..8 {
        for x in 0..8 {
            block[8 * y + x] = ((x + y) % 2) as u8;
        }
    }
    block
}

/// A block that no mirroring leaves as it is, with pixels from 0 to 3.
fn lopsided() -> Vec<u8> {
    let mut block = vec![0u8; 64];
    block[0] = 1;
    block[1] = 2;
    block[8] = 3;
    block
}

fn flip_columns(block: &[u8]) -> Vec<u8> {
    let mut out = vec![0u8; 64];
    for y in 0..8 {
        for x in 0..8 {
            out[8 * y + x] = block[8 * y + 7 - x];
        }
    }
    out
}

fn flip_rows(block: &[u8]) -> Vec<u8> {
    let mut out = vec![0u8; 64];
    for y in 0..8 {
        for x in 0..8 {
            out[8 * y + x] = block[8 * (7 - y) + x];
        }
    }
    out
}

/// 33 x 32 blocks at eight bits per pixel, no two of them alike under any
/// mirroring: each holds its number in its first two pixels.
fn many_tiles() -> Image {
    let across = 33usize;
    let down = 32usize;
    let width = 8 * across;
    let mut buffer = vec![255u8; width * 8 * down];
    for by in 0..down {
        for bx in 0..across {
            let n = by * across + bx;
            buffer[8 * by * width + 8 * bx] = (n % 256) as u8;
            buffer[8 * by * width + 8 * bx + 1] = (n / 256) as u8;
        }
    }
    image(width as u32, (8 * down) as u32, buffer)
}

#[test]
fn format_check_wants_indexed_colour() {
    let message = "Color type of the PNG file must be Indexed Color.";
    assert_eq!(check_format(ColorType::RGB, 8, 8), Err(message));
    assert_eq!(check_format(ColorType::RGBA, 8, 8), Err(message));
    assert_eq!(check_format(ColorType::Grayscale, 8, 8), Err(message));
    assert_eq!(check_format(ColorType::GrayscaleAlpha, 8, 8), Err(message));
    // the colour type is looked at first
    assert_eq!(check_format(ColorType::RGB, 7, 8), Err(message));
    assert_eq!(check_format(ColorType::Indexed, 8, 8), Ok(()));
}

#[test]
fn format_check_wants_whole_blocks() {
    let message = "Width and height of the image must be multiples of 8.";
    assert_eq!(check_format(ColorType::Indexed, 7, 8), Err(message));
    assert_eq!(check_format(ColorType::Indexed, 8, 12), Err(message));
    assert_eq!(check_format(ColorType::Indexed, 0, 8), Err(message));
    assert_eq!(check_format(ColorType::Indexed, 8, 0), Err(message));
    assert_eq!(check_format(ColorType::Indexed, 256, 224), Ok(()));
}

#[test]
fn image_wants_whole_blocks() {
    let message = "Width and height of the image must be multiples of 8.";
    let made = Image::new(9, 8, vec![0u8; 72], &grey_palette(2));
    assert_eq!(made.err(), Some(message));
    let made = Image::new(0, 0, vec![], &grey_palette(2));
    assert_eq!(made.err(), Some(message));
}

#[test]
fn image_keeps_size_depth_and_palette() {
    let picture = Image::new(16, 8, vec![1u8; 128], &[0xf8, 0, 0, 0, 0xf8, 0]).unwrap();
    assert_eq!(picture.width(), 16);
    assert_eq!(picture.height(), 8);
    assert_eq!(picture.bpp(), BitsPerPixel::Two);
    assert_eq!(picture.get_palettes(), &vec![SNESColor(0x001f), SNESColor(0x03e0)]);
}

#[test]
fn palette_is_converted_colour_by_colour() {
    assert_eq!(convert_palette(&[]), vec![]);
    assert_eq!(
        convert_palette(&[0xf8, 0xf8, 0xf8, 0x80, 0x80, 0x80, 0, 0, 0xf8]),
        vec![SNESColor(0x7fff), SNESColor(0x4210), SNESColor(0x7c00)]
    );
    // channels between two levels go up
    assert_eq!(
        convert_palette(&[1, 9, 17, 0xf9, 0xf1, 0xf0]),
        vec![SNESColor(1 | 2 << 5 | 3 << 10), SNESColor(31 | 31 << 5 | 30 << 10)]
    );
}

#[test]
fn checkerboard_image_packs_to_two_tiles() {
    let picture = row_of_blocks(&[checkerboard(), checkerboard()]);
    assert_eq!(picture.bpp(), BitsPerPixel::Two);
    let (tiles, tilemap) = picture.convert_to(None, false, false).unwrap();
    assert!(tilemap.is_none());
    assert_eq!(tiles.len(), 32);
    let tile = vec![
        0x55, 0x00, 0xAA, 0x00, 0x55, 0x00, 0xAA, 0x00, 0x55, 0x00, 0xAA, 0x00, 0x55, 0x00, 0xAA,
        0x00,
    ];
    assert_eq!(&tiles[..16], &tile[..]);
    assert_eq!(&tiles[16..], &tile[..]);
}

#[test]
fn narrow_blocks_need_two_bits() {
    let mut low = vec![8u8; 64];
    low[5] = 11;
    low[6] = 9;
    let mut high = vec![252u8; 64];
    high[0] = 255;
    high[63] = 253;
    let picture = row_of_blocks(&[low, high, vec![77u8; 64]]);
    assert_eq!(picture.bpp(), BitsPerPixel::Two);
}

#[test]
fn without_dedup_every_block_is_a_tile() {
    let picture = image(24, 16, vec![3u8; 24 * 16]);
    for (depth, size) in
        [(BitsPerPixel::Two, 16usize), (BitsPerPixel::Four, 32), (BitsPerPixel::Eight, 64)]
    {
        let (tiles, tilemap) = picture.convert_to(Some(depth), false, true).unwrap();
        assert_eq!(tiles.len(), 3 * 2 * size);
        let tilemap = tilemap.unwrap().unwrap();
        assert_eq!(tilemap.len(), 2 * 6);
        for n in 0..6usize {
            assert_eq!(tilemap[2 * n], n as u8);
            assert_eq!(tilemap[2 * n + 1], 0);
        }
    }
}

#[test]
fn dedup_keeps_one_tile_of_a_kind() {
    let picture = image(24, 16, vec![3u8; 24 * 16]);
    let (tiles, tilemap) = picture.convert_to(None, true, true).unwrap();
    assert_eq!(tiles, pack_block(&[3u8; 64], BitsPerPixel::Two, Mirror::Plain));
    assert_eq!(tilemap, Some(Ok(vec![0u8; 12])));
}

#[test]
fn dedup_is_the_same_every_time() {
    let picture = row_of_blocks(&[
        lopsided(),
        checkerboard(),
        flip_rows(&lopsided()),
        lopsided(),
        vec![2u8; 64],
    ]);
    let first = picture.convert_to(None, true, true).unwrap();
    let second = picture.convert_to(None, true, true).unwrap();
    assert_eq!(first, second);
    let again = row_of_blocks(&[
        lopsided(),
        checkerboard(),
        flip_rows(&lopsided()),
        lopsided(),
        vec![2u8; 64],
    ]);
    assert_eq!(again.convert_to(None, true, true).unwrap(), first);
}

#[test]
fn mirror_image_shares_the_tile() {
    let block = lopsided();
    let picture = row_of_blocks(&[block.clone(), flip_columns(&block)]);
    let (tiles, tilemap) = picture.convert_to(None, true, true).unwrap();
    assert_eq!(tiles, pack_block(&block, BitsPerPixel::Two, Mirror::Plain));
    assert_eq!(tilemap, Some(Ok(vec![0x00, 0x00, 0x00, 0x40])));
    let (_, entries) = picture.encode(BitsPerPixel::Two, true);
    assert_eq!(
        entries,
        vec![
            TilemapEntry { tile: 0, palette: 0, mirror: Mirror::Plain },
            TilemapEntry { tile: 0, palette: 0, mirror: Mirror::Horizontal },
        ]
    );
}

#[test]
fn all_mirrorings_are_matched_in_order() {
    let block = lopsided();
    let across = flip_columns(&block);
    let down = flip_rows(&block);
    let both = flip_rows(&across);
    let picture = row_of_blocks(&[
        vec![0u8; 64],
        block.clone(),
        down,
        both,
        across,
        block.clone(),
    ]);
    let (tiles, entries) = picture.encode(BitsPerPixel::Two, true);
    assert_eq!(tiles.len(), 32);
    assert_eq!(&tiles[16..], &pack_block(&block, BitsPerPixel::Two, Mirror::Plain)[..]);
    let mirrors: Vec<Mirror> = entries.iter().map(|e| e.mirror).collect();
    let indices: Vec<usize> = entries.iter().map(|e| e.tile).collect();
    assert_eq!(indices, vec![0, 1, 1, 1, 1, 1]);
    assert_eq!(
        mirrors,
        vec![
            Mirror::Plain,
            Mirror::Plain,
            Mirror::Vertical,
            Mirror::Both,
            Mirror::Horizontal,
            Mirror::Plain
        ]
    );
    let (_, tilemap) = picture.convert_to(None, true, true).unwrap();
    assert_eq!(
        tilemap,
        Some(Ok(vec![0, 0x00, 1, 0x00, 1, 0x80, 1, 0xC0, 1, 0x40, 1, 0x00]))
    );
}

#[test]
fn symmetric_block_matches_plain_first() {
    // the checkerboard with left and right exchanged is the checkerboard
    // one row down; with both exchanged it is itself
    let block = checkerboard();
    let picture = row_of_blocks(&[block.clone(), flip_columns(&block), flip_rows(&flip_columns(&block))]);
    let (tiles, entries) = picture.encode(BitsPerPixel::Two, true);
    assert_eq!(tiles.len(), 16);
    let mirrors: Vec<Mirror> = entries.iter().map(|e| e.mirror).collect();
    assert_eq!(mirrors, vec![Mirror::Plain, Mirror::Horizontal, Mirror::Plain]);
}

#[test]
fn without_dedup_mirror_images_are_tiles_of_their_own() {
    let block = lopsided();
    let picture = row_of_blocks(&[block.clone(), flip_columns(&block), block.clone()]);
    let (tiles, entries) = picture.encode(BitsPerPixel::Two, false);
    assert_eq!(tiles.len(), 48);
    assert_eq!(&tiles[..16], &tiles[32..]);
    assert_eq!(
        entries,
        vec![
            TilemapEntry { tile: 0, palette: 0, mirror: Mirror::Plain },
            TilemapEntry { tile: 1, palette: 0, mirror: Mirror::Plain },
            TilemapEntry { tile: 2, palette: 0, mirror: Mirror::Plain },
        ]
    );
}

#[test]
fn tiles_are_shared_across_palettes() {
    // the same pattern drawn with palette 1 and with palette 2
    let mut first = vec![0x10u8; 64];
    first[3] = 0x1f;
    let mut second = vec![0x20u8; 64];
    second[3] = 0x2f;
    let picture = row_of_blocks(&[first.clone(), second]);
    assert_eq!(picture.bpp(), BitsPerPixel::Four);
    let (tiles, tilemap) = picture.convert_to(None, true, true).unwrap();
    assert_eq!(tiles, pack_block(&first, BitsPerPixel::Four, Mirror::Plain));
    assert_eq!(tilemap, Some(Ok(vec![0x00, 1 << 2, 0x00, 2 << 2])));
}

#[test]
fn palette_of_two_bit_tiles_goes_by_groups_of_four() {
    let picture = row_of_blocks(&[vec![0u8; 64], vec![5u8; 64], vec![0x3eu8; 64]]);
    assert_eq!(picture.bpp(), BitsPerPixel::Two);
    let (_, entries) = picture.encode(BitsPerPixel::Two, false);
    let palettes: Vec<u8> = entries.iter().map(|e| e.palette).collect();
    assert_eq!(palettes, vec![0, 1, 15]);
    let (_, entries) = picture.encode(BitsPerPixel::Eight, false);
    let palettes: Vec<u8> = entries.iter().map(|e| e.palette).collect();
    assert_eq!(palettes, vec![0, 0, 0]);
}

#[test]
fn depth_below_the_least_is_refused() {
    let mut block = vec![0u8; 64];
    block[9] = 5;
    let picture = row_of_blocks(&[block]);
    assert_eq!(picture.bpp(), BitsPerPixel::Four);
    let refused = picture.convert_to(Some(BitsPerPixel::Two), false, true);
    assert_eq!(refused, Err("Invalid bpp specified."));
    let refused = picture.convert_to(Some(BitsPerPixel::Two), true, false);
    assert_eq!(refused, Err("Invalid bpp specified."));
    assert!(picture.convert_to(Some(BitsPerPixel::Four), false, true).is_ok());
    assert!(picture.convert_to(Some(BitsPerPixel::Eight), false, true).is_ok());
}

#[test]
fn depth_above_the_least_gives_larger_tiles() {
    let picture = row_of_blocks(&[checkerboard(), lopsided()]);
    assert_eq!(picture.bpp(), BitsPerPixel::Two);
    let (least, _) = picture.convert_to(None, false, false).unwrap();
    let (asked, _) = picture.convert_to(Some(BitsPerPixel::Two), false, false).unwrap();
    assert_eq!(least, asked);
    let (deep, _) = picture.convert_to(Some(BitsPerPixel::Eight), false, false).unwrap();
    assert_eq!(least.len(), 2 * 16);
    assert_eq!(deep.len(), 2 * 64);
    // the two planes that both depths have hold the same bytes
    assert_eq!(&deep[..16], &least[..16]);
    assert_eq!(&deep[64..80], &least[16..]);
    assert!(deep[16..64].iter().all(|b| *b == 0));
}

#[test]
fn too_many_tiles_fail_the_tilemap_only() {
    let picture = many_tiles();
    assert_eq!(picture.bpp(), BitsPerPixel::Eight);
    let (tiles, tilemap) = picture.convert_to(None, true, true).unwrap();
    assert_eq!(tiles.len(), 33 * 32 * 64);
    assert_eq!(tilemap, Some(Err("Invalid tilemap")));
    // the tiles stand: the last one is the last block's
    let mut last = vec![255u8; 64];
    last[0] = (1055 % 256) as u8;
    last[1] = (1055 / 256) as u8;
    assert_eq!(&tiles[1055 * 64..], &pack_block(&last, BitsPerPixel::Eight, Mirror::Plain)[..]);
    let (tiles, tilemap) = picture.convert_to(None, false, true).unwrap();
    assert_eq!(tiles.len(), 33 * 32 * 64);
    assert_eq!(tilemap, Some(Err("Invalid tilemap")));
    let (_, tilemap) = picture.convert_to(None, true, false).unwrap();
    assert_eq!(tilemap, None);
}

#[test]
fn as_many_tiles_as_the_limit_fit() {
    // 32 x 32 blocks, each holding its number
    let width = 256usize;
    let mut buffer = vec![255u8; width * 256];
    for by in 0..32usize {
        for bx in 0..32usize {
            let n = by * 32 + bx;
            buffer[8 * by * width + 8 * bx] = (n % 256) as u8;
            buffer[8 * by * width + 8 * bx + 1] = (n / 256) as u8;
        }
    }
    let picture = image(256, 256, buffer);
    let (tiles, tilemap) = picture.convert_to(None, true, true).unwrap();
    assert_eq!(tiles.len(), 1024 * 64);
    let tilemap = tilemap.unwrap().unwrap();
    assert_eq!(tilemap.len(), 2048);
    assert_eq!(&tilemap[..4], &[0x00, 0x00, 0x01, 0x00]);
    assert_eq!(&tilemap[2046..], &[0xFF, 0x03]);
}

#[test]
fn many_copies_of_few_tiles_fit_with_dedup() {
    // more blocks than the limit, all alike
    let picture = image(264, 256, vec![9u8; 264 * 256]);
    let (tiles, tilemap) = picture.convert_to(None, true, true).unwrap();
    assert_eq!(tiles.len(), 16);
    assert_eq!(tilemap, Some(Ok(vec![0x00, 0x08].repeat(33 * 32))));
    let (tiles, tilemap) = picture.convert_to(None, false, true).unwrap();
    assert_eq!(tiles.len(), 33 * 32 * 16);
    assert_eq!(tilemap, Some(Err("Invalid tilemap")));
}
