use snesgfx::block::{depth_of_block, select_palette};
use snesgfx::depth::BitsPerPixel;
use snesgfx::image::{copy_block, Image};
use snesgfx::mirror::Mirror;
use snesgfx::pack::{pack_block, unpack_tile};

fn checkerboard() -> Vec<u8> {
    let mut block = vec![0u8; 64];
    for y in 0..8 {
        for x in 0..8 {
            block[8 * y + x] = ((x + y) % 2) as u8;
        }
    }
    block
}

fn scattered() -> Vec<u8> {
    let mut block = vec![0u8; 64];
    for i in 0..64usize {
        block[i] = ((i * 37 + 11) % 256) as u8;
    }
    block
}

#[test]
fn depths_are_ordered() {
    assert!(BitsPerPixel::Two < BitsPerPixel::Four);
    assert!(BitsPerPixel::Four < BitsPerPixel::Eight);
    assert!(BitsPerPixel::Two < BitsPerPixel::Eight);
    assert!(!(BitsPerPixel::Four < BitsPerPixel::Four));
    assert!(BitsPerPixel::Eight >= BitsPerPixel::Two);
    assert_eq!(BitsPerPixel::Two.max(BitsPerPixel::Eight), BitsPerPixel::Eight);
}

#[test]
fn tile_sizes() {
    assert_eq!(BitsPerPixel::Two.tile_size(), 16);
    assert_eq!(BitsPerPixel::Four.tile_size(), 32);
    assert_eq!(BitsPerPixel::Eight.tile_size(), 64);
    assert_eq!(BitsPerPixel::Two.plane_count(), 2);
    assert_eq!(BitsPerPixel::Four.plane_count(), 4);
    assert_eq!(BitsPerPixel::Eight.plane_count(), 8);
}

#[test]
fn uniform_block_needs_two_bits() {
    assert_eq!(depth_of_block(&[0u8; 64]), BitsPerPixel::Two);
    assert_eq!(depth_of_block(&[200u8; 64]), BitsPerPixel::Two);
}

#[test]
fn block_depth_goes_by_shared_high_bits() {
    let mut block = vec![10u8; 64];
    block[63] = 11;
    assert_eq!(depth_of_block(&block), BitsPerPixel::Two);
    // 10 and 13 lie in different groups of four, in one group of sixteen
    block[5] = 13;
    assert_eq!(depth_of_block(&block), BitsPerPixel::Four);
    // 15 and 16 are neighbours in different groups of sixteen
    let mut block = vec![15u8; 64];
    block[17] = 16;
    assert_eq!(depth_of_block(&block), BitsPerPixel::Eight);
    // 3 and 4 are neighbours in different groups of four
    let mut block = vec![3u8; 64];
    block[0] = 4;
    assert_eq!(depth_of_block(&block), BitsPerPixel::Four);
}

#[test]
fn palette_is_taken_from_the_top_left_pixel() {
    let mut block = vec![0x35u8; 64];
    block[1] = 0xff;
    assert_eq!(select_palette(&block, BitsPerPixel::Two), 0x35 >> 2);
    assert_eq!(select_palette(&block, BitsPerPixel::Four), 3);
    assert_eq!(select_palette(&block, BitsPerPixel::Eight), 0);
}

#[test]
fn checkerboard_packs_to_alternating_bytes() {
    let tile = pack_block(&checkerboard(), BitsPerPixel::Two, Mirror::Plain);
    assert_eq!(
        tile,
        vec![
            0x55, 0x00, 0xAA, 0x00, 0x55, 0x00, 0xAA, 0x00, 0x55, 0x00, 0xAA, 0x00, 0x55, 0x00,
            0xAA, 0x00
        ]
    );
}

#[test]
fn planes_are_stored_in_pairs() {
    let mut block = vec![0u8; 64];
    block[0] = 0xff;
    let tile = pack_block(&block, BitsPerPixel::Eight, Mirror::Plain);
    let mut expected = vec![0u8; 64];
    for k in [0usize, 1, 16, 17, 32, 33, 48, 49] {
        expected[k] = 0x80;
    }
    assert_eq!(tile, expected);

    // one pixel with only bit 5 set, in column 3 of row 2
    let mut block = vec![0u8; 64];
    block[8 * 2 + 3] = 0x20;
    let tile = pack_block(&block, BitsPerPixel::Eight, Mirror::Plain);
    let mut expected = vec![0u8; 64];
    expected[32 + 2 * 2 + 1] = 0x10;
    assert_eq!(tile, expected);
}

#[test]
fn shallow_depths_drop_high_bits() {
    let mut block = vec![0u8; 64];
    block[0] = 0xff;
    let two = pack_block(&block, BitsPerPixel::Two, Mirror::Plain);
    let mut expected = vec![0u8; 16];
    expected[0] = 0x80;
    expected[1] = 0x80;
    assert_eq!(two, expected);
    let four = pack_block(&block, BitsPerPixel::Four, Mirror::Plain);
    let mut expected = vec![0u8; 32];
    for k in [0usize, 1, 16, 17] {
        expected[k] = 0x80;
    }
    assert_eq!(four, expected);
}

#[test]
fn mirroring_exchanges_pixels_before_packing() {
    let mut block = vec![0u8; 64];
    block[0] = 1;
    let plain = pack_block(&block, BitsPerPixel::Two, Mirror::Plain);
    let across = pack_block(&block, BitsPerPixel::Two, Mirror::Horizontal);
    let down = pack_block(&block, BitsPerPixel::Two, Mirror::Vertical);
    let both = pack_block(&block, BitsPerPixel::Two, Mirror::Both);
    let mut expected = vec![0u8; 16];
    expected[0] = 0x80;
    assert_eq!(plain, expected);
    let mut expected = vec![0u8; 16];
    expected[0] = 0x01;
    assert_eq!(across, expected);
    let mut expected = vec![0u8; 16];
    expected[14] = 0x80;
    assert_eq!(down, expected);
    let mut expected = vec![0u8; 16];
    expected[14] = 0x01;
    assert_eq!(both, expected);
}

#[test]
fn mirrored_block_packs_like_the_mirroring() {
    let block = scattered();
    let mut flipped = vec![0u8; 64];
    for y in 0..8 {
        for x in 0..8 {
            flipped[8 * y + x] = block[8 * y + (7 - x)];
        }
    }
    for depth in [BitsPerPixel::Two, BitsPerPixel::Four, BitsPerPixel::Eight] {
        assert_eq!(
            pack_block(&flipped, depth, Mirror::Plain),
            pack_block(&block, depth, Mirror::Horizontal)
        );
        assert_eq!(
            pack_block(&flipped, depth, Mirror::Horizontal),
            pack_block(&block, depth, Mirror::Plain)
        );
        assert_eq!(
            pack_block(&flipped, depth, Mirror::Vertical),
            pack_block(&block, depth, Mirror::Both)
        );
    }
}

#[test]
fn unpacking_gives_the_block_back_at_eight_bits() {
    let block = scattered();
    let tile = pack_block(&block, BitsPerPixel::Eight, Mirror::Plain);
    assert_eq!(tile.len(), 64);
    assert_eq!(unpack_tile(&tile, BitsPerPixel::Eight), block);

    let mut all = vec![0u8; 64];
    for i in 0..64usize {
        all[i] = (255 - 4 * i) as u8;
    }
    let tile = pack_block(&all, BitsPerPixel::Eight, Mirror::Plain);
    assert_eq!(unpack_tile(&tile, BitsPerPixel::Eight), all);
}

#[test]
fn unpacking_gives_the_low_bits_back_at_lesser_depths() {
    let block = scattered();
    let low4: Vec<u8> = block.iter().map(|p| p % 16).collect();
    let low2: Vec<u8> = block.iter().map(|p| p % 4).collect();
    let tile = pack_block(&block, BitsPerPixel::Four, Mirror::Plain);
    assert_eq!(unpack_tile(&tile, BitsPerPixel::Four), low4);
    let tile = pack_block(&block, BitsPerPixel::Two, Mirror::Plain);
    assert_eq!(unpack_tile(&tile, BitsPerPixel::Two), low2);
}

#[test]
fn packing_an_unpacked_tile_gives_the_tile_back() {
    let mut tile = vec![0u8; 32];
    for k in 0..32usize {
        tile[k] = (k * 29 + 7) as u8;
    }
    let block = unpack_tile(&tile, BitsPerPixel::Four);
    assert!(block.iter().all(|p| *p < 16));
    assert_eq!(pack_block(&block, BitsPerPixel::Four, Mirror::Plain), tile);
}

#[test]
fn blocks_are_cut_in_raster_order() {
    // 16 x 16 pixels, each pixel holding its block number
    let mut buffer = vec![0u8; 256];
    for y in 0..16usize {
        for x in 0..16usize {
            buffer[16 * y + x] = (2 * (y / 8) + x / 8) as u8;
        }
    }
    for n in 0..4usize {
        assert_eq!(copy_block(&buffer, 16, 16, n), vec![n as u8; 64]);
    }
    // pixel order within a block
    let mut buffer = vec![0u8; 128];
    for y in 0..8usize {
        for x in 0..16usize {
            buffer[16 * y + x] = (16 * y + x) as u8;
        }
    }
    let second = copy_block(&buffer, 16, 8, 1);
    assert_eq!(second[0], 8);
    assert_eq!(second[7], 15);
    assert_eq!(second[8], 24);
    assert_eq!(second[63], 127);
}

#[test]
fn analyzer_takes_the_deepest_block() {
    // two blocks side by side
    let mut buffer = vec![0u8; 128];
    assert_eq!(Image::analyze_bpp(&buffer, 16, 8), BitsPerPixel::Two);
    buffer[8] = 200;
    buffer[9] = 203;
    for y in 0..8usize {
        for x in 8..16usize {
            buffer[16 * y + x] = 200 + ((x + y) % 4) as u8;
        }
    }
    // each block keeps within four values, though the image does not
    assert_eq!(Image::analyze_bpp(&buffer, 16, 8), BitsPerPixel::Two);
    buffer[16 * 7 + 15] = 207;
    assert_eq!(Image::analyze_bpp(&buffer, 16, 8), BitsPerPixel::Four);
    buffer[0] = 16;
    assert_eq!(Image::analyze_bpp(&buffer, 16, 8), BitsPerPixel::Eight);
}

#[test]
fn analyzer_of_an_image_without_blocks() {
    assert_eq!(Image::analyze_bpp(&[], 0, 0), BitsPerPixel::Two);
    assert_eq!(Image::analyze_bpp(&[], 8, 0), BitsPerPixel::Two);
}
