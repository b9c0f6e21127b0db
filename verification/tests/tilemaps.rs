use snesgfx::snes::gfx::SNESColor;
use snesgfx::mirror::Mirror;
use snesgfx::palette::{palette_bytes, palette_file, palette_payload, palette_words, read_count};
use snesgfx::tilemap::{encode_tilemap, pack_entry, TilemapEntry};
use snesgfx::tileset::{same_bytes, TileSet};
use snesgfx::image::BitsPerPixel;

#[test]
fn entry_is_packed_into_two_bytes() {
    let entry = TilemapEntry { tile: 0x3FF, palette: 3, mirror: Mirror::Both };
    assert_eq!(pack_entry(entry), (0xFF, 0xCF));
    let entry = TilemapEntry { tile: 0x123, palette: 0, mirror: Mirror::Plain };
    assert_eq!(pack_entry(entry), (0x23, 0x01));
    let entry = TilemapEntry { tile: 0x200, palette: 5, mirror: Mirror::Horizontal };
    assert_eq!(pack_entry(entry), (0x00, 0x02 | 5 << 2 | 0x40));
    let entry = TilemapEntry { tile: 7, palette: 1, mirror: Mirror::Vertical };
    assert_eq!(pack_entry(entry), (0x07, 0x84));
}

#[test]
fn palette_bits_beyond_the_byte_are_lost() {
    let entry = TilemapEntry { tile: 0, palette: 0x3F, mirror: Mirror::Plain };
    assert_eq!(pack_entry(entry), (0x00, 0xFC));
    let entry = TilemapEntry { tile: 0, palette: 0x40, mirror: Mirror::Plain };
    assert_eq!(pack_entry(entry), (0x00, 0x00));
}

#[test]
fn mirror_flag_bits() {
    assert_eq!(Mirror::Plain.bits(), 0);
    assert_eq!(Mirror::Horizontal.bits(), 1);
    assert_eq!(Mirror::Vertical.bits(), 2);
    assert_eq!(Mirror::Both.bits(), 3);
    assert_eq!(Mirror::Plain.column_mask(), 0);
    assert_eq!(Mirror::Horizontal.column_mask(), 7);
    assert_eq!(Mirror::Vertical.column_mask(), 0);
    assert_eq!(Mirror::Both.column_mask(), 7);
    assert_eq!(Mirror::Plain.row_mask(), 0);
    assert_eq!(Mirror::Horizontal.row_mask(), 0);
    assert_eq!(Mirror::Vertical.row_mask(), 7);
    assert_eq!(Mirror::Both.row_mask(), 7);
}

#[test]
fn tilemap_is_two_bytes_for_each_entry() {
    assert_eq!(encode_tilemap(&[]), Ok(vec![]));
    let entries = [
        TilemapEntry { tile: 0, palette: 0, mirror: Mirror::Plain },
        TilemapEntry { tile: 0x3FF, palette: 2, mirror: Mirror::Horizontal },
        TilemapEntry { tile: 0x100, palette: 0, mirror: Mirror::Vertical },
    ];
    assert_eq!(encode_tilemap(&entries), Ok(vec![0x00, 0x00, 0xFF, 0x4B, 0x00, 0x81]));
}

#[test]
fn tilemap_fails_on_a_tile_beyond_the_limit() {
    let fine = TilemapEntry { tile: 1, palette: 0, mirror: Mirror::Plain };
    let beyond = TilemapEntry { tile: 0x400, palette: 0, mirror: Mirror::Plain };
    assert_eq!(encode_tilemap(&[beyond]), Err("Invalid tilemap"));
    assert_eq!(encode_tilemap(&[fine, fine, beyond]), Err("Invalid tilemap"));
    assert_eq!(encode_tilemap(&[beyond, fine]), Err("Invalid tilemap"));
    let far = TilemapEntry { tile: usize::MAX, palette: 0, mirror: Mirror::Plain };
    assert_eq!(encode_tilemap(&[fine, far]), Err("Invalid tilemap"));
}

#[test]
fn tile_set_finds_the_first_place() {
    let mut set = TileSet::new(BitsPerPixel::Two);
    assert_eq!(set.len(), 0);
    assert_eq!(set.find(&[0u8; 16]), None);
    let zero = set.place(&[0u8; 64], true);
    assert_eq!(zero, TilemapEntry { tile: 0, palette: 0, mirror: Mirror::Plain });
    let one = set.place(&[1u8; 64], true);
    assert_eq!(one, TilemapEntry { tile: 1, palette: 0, mirror: Mirror::Plain });
    let again = set.place(&[0u8; 64], true);
    assert_eq!(again, TilemapEntry { tile: 0, palette: 0, mirror: Mirror::Plain });
    // the high bits choose the palette, the low bits the tile
    let other = set.place(&[5u8; 64], true);
    assert_eq!(other, TilemapEntry { tile: 1, palette: 1, mirror: Mirror::Plain });
    assert_eq!(set.len(), 2);
    let forced = set.place(&[0u8; 64], false);
    assert_eq!(forced, TilemapEntry { tile: 2, palette: 0, mirror: Mirror::Plain });
    assert_eq!(set.len(), 3);
    // of two equal tiles the first is found
    assert_eq!(set.find(&[0u8; 16]), Some(0));
    let mut ones = vec![0u8; 16];
    for row in 0..8 {
        ones[2 * row] = 0xFF;
    }
    assert_eq!(set.find(&ones), Some(1));
    let mut bytes = vec![0u8; 16];
    bytes.extend_from_slice(&ones);
    bytes.extend_from_slice(&[0u8; 16]);
    assert_eq!(set.into_bytes(), bytes);
}

#[test]
fn bytes_are_compared_whole() {
    assert!(same_bytes(&[], &[]));
    assert!(same_bytes(&[1, 2, 3], &[1, 2, 3]));
    assert!(!same_bytes(&[1, 2, 3], &[1, 2]));
    assert!(!same_bytes(&[1, 2, 3], &[1, 2, 4]));
    assert!(!same_bytes(&[], &[0]));
}

#[test]
fn palette_file_is_two_bytes_for_each_colour() {
    assert_eq!(palette_bytes(&[]), Ok(vec![]));
    let palette = [SNESColor(0x7fff), SNESColor(0x001f), SNESColor(0x4210)];
    assert_eq!(palette_bytes(&palette), Ok(vec![0xff, 0x7f, 0x1f, 0x00, 0x10, 0x42]));
    let palette = vec![SNESColor(0x0102); 256];
    assert_eq!(palette_bytes(&palette), Ok(vec![0x02, 0x01].repeat(256)));
}

#[test]
fn palette_file_is_there_for_every_palette() {
    assert!(palette_bytes(&[]).is_ok());
    assert!(palette_bytes(&[SNESColor(0xffff)]).is_ok());
    let long: Vec<SNESColor> = (0..5000u16).map(SNESColor).collect();
    let bytes = palette_bytes(&long).unwrap();
    assert_eq!(bytes.len(), 10000);
    assert_eq!(&bytes[9998..], &[0x87, 0x13]);
}

#[test]
fn palette_words_are_the_colours() {
    assert_eq!(palette_words(&[SNESColor(3), SNESColor(0x7c00)]), vec![3, 0x7c00]);
}

#[test]
fn count_is_read_lowest_byte_first() {
    assert_eq!(read_count(&[0, 0, 0, 0, 0, 0, 0, 0]), 0);
    assert_eq!(read_count(&[1, 2, 0, 0, 0, 0, 0, 0, 9, 9]), 0x0201);
    assert_eq!(read_count(&[1, 2, 3, 4, 5, 6, 7, 8]), 0x0807_0605_0403_0201);
    assert_eq!(read_count(&[0xff; 8]), u64::MAX);
}

#[test]
fn payload_is_what_follows_a_true_count() {
    assert_eq!(palette_payload(&[0, 0, 0, 0, 0, 0, 0, 0]), Some(vec![]));
    assert_eq!(
        palette_payload(&[2, 0, 0, 0, 0, 0, 0, 0, 0x1f, 0x00, 0xe0, 0x03]),
        Some(vec![0x1f, 0x00, 0xe0, 0x03])
    );
    // a count that is not the number of words
    assert_eq!(palette_payload(&[1, 0, 0, 0, 0, 0, 0, 0, 0x1f, 0x00, 0xe0, 0x03]), None);
    assert_eq!(palette_payload(&[2, 0, 0, 0, 0, 0, 0, 0, 0x1f, 0x00, 0xe0]), None);
    assert_eq!(palette_payload(&[0, 0, 0, 0, 0, 0, 0, 0x80]), None);
    // too short to hold a count
    assert_eq!(palette_payload(&[0, 0, 0]), None);
    assert_eq!(palette_payload(&[]), None);
}

#[test]
fn palette_file_is_what_the_serialiser_framed() {
    let framed = vec![1, 0, 0, 0, 0, 0, 0, 0, 0x34, 0x12];
    assert_eq!(palette_file(Ok(framed)), Ok(vec![0x34, 0x12]));
    assert_eq!(palette_file(Ok(vec![0; 8])), Ok(vec![]));
}

#[test]
fn palette_file_fails_with_the_serialiser() {
    let message = "Could not serialize the palette.";
    let failure = Box::new(bincode::ErrorKind::SizeLimit);
    assert_eq!(palette_file(Err(failure)), Err(message));
    let failure = Box::new(bincode::ErrorKind::SequenceMustHaveLength);
    assert_eq!(palette_file(Err(failure)), Err(message));
}

#[test]
fn palette_file_fails_on_a_false_count() {
    let message = "Could not serialize the palette.";
    assert_eq!(palette_file(Ok(vec![2, 0, 0, 0, 0, 0, 0, 0, 0x34, 0x12])), Err(message));
    assert_eq!(palette_file(Ok(vec![0x34, 0x12])), Err(message));
    assert_eq!(palette_file(Ok(vec![])), Err(message));
}

#[test]
fn palette_file_agrees_with_the_serialiser() {
    let words: Vec<u16> = vec![0x7fff, 0x0001, 0x4210, 0x8000];
    let serialized = bincode::serialize(&words).unwrap();
    assert_eq!(serialized.len(), 8 + 2 * 4);
    assert_eq!(read_count(&serialized), 4);
    assert_eq!(
        palette_file(Ok(serialized)),
        Ok(vec![0xff, 0x7f, 0x01, 0x00, 0x10, 0x42, 0x00, 0x80])
    );
}
