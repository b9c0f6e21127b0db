//! Colours: 24-bit RGB as a decoder hands it over, and the console's 15-bit
//! colour word with five bits per channel, red lowest.

use vstd::prelude::*;
use vstd::std_specs::convert::FromSpecImpl;

verus! {

/// An RGB colour with eight bits per channel: red, green, blue.
#[derive(Debug, Clone, Copy, PartialEq, Eq, Structural, Hash)]
pub struct Color(pub u8, pub u8, pub u8);

/// A console colour word: red in bits 0 to 4, green in bits 5 to 9, blue in
/// bits 10 to 14.
#[derive(Debug, Clone, Copy, PartialEq, Eq, Structural, Hash)]
pub struct SNESColor(pub u16);

/// The five-bit level of an eight-bit channel: the channel is rounded up to
/// the next multiple of 8, a multiple of 8 staying as it is, and capped at
/// 248; the level is that multiple divided by 8.
pub open spec fn channel_level(c: u8) -> int {
    if (c + 7) / 8 < 31 {
        (c + 7) / 8
    } else {
        31
    }
}

/// The colour word that holds the three given five-bit levels.
pub open spec fn word_of_levels(r: int, g: int, b: int) -> int {
    r + 32 * g + 1024 * b
}

/// The five-bit level of one channel of a colour word. `unit` is the weight
/// of the channel's lowest bit: 1 for red, 32 for green, 1024 for blue.
pub open spec fn level_of_word(word: u16, unit: int) -> int {
    (word as int / unit) % 32
}

/// The console colour that stands for an RGB colour.
pub open spec fn console_color(color: Color) -> SNESColor {
    SNESColor(
        word_of_levels(
            channel_level(color.0),
            channel_level(color.1),
            channel_level(color.2),
        ) as u16,
    )
}

/// The RGB colour that a console colour shows: each level times 8.
pub open spec fn rgb_color(word: SNESColor) -> Color {
    Color(
        (8 * level_of_word(word.0, 1)) as u8,
        (8 * level_of_word(word.0, 32)) as u8,
        (8 * level_of_word(word.0, 1024)) as u8,
    )
}

impl FromSpecImpl<Color> for SNESColor {
    open spec fn obeys_from_spec() -> bool {
        true
    }

    open spec fn from_spec(color: Color) -> SNESColor {
        console_color(color)
    }
}

impl FromSpecImpl<SNESColor> for Color {
    open spec fn obeys_from_spec() -> bool {
        true
    }

    open spec fn from_spec(color: SNESColor) -> Color {
        rgb_color(color)
    }
}

/// The channel rounded up and capped, still as a multiple of 8.
fn quantize(c: u8) -> (q: u16)
    ensures
        q == 8 * channel_level(c),
{
    let raised: u16 = c as u16 + 7;
    let capped: u16 = if raised < 0xF8 {
        raised
    } else {
        0xF8
    };
    assert(capped & 0xF8 == 8 * (capped / 8)) by (bit_vector)
        requires
            capped <= 0xF8,
    ;
    capped & 0xF8
}

impl From<Color> for SNESColor {
    fn from(color: Color) -> (word: SNESColor) {
        let Color(r, g, b) = color;
        let r: u16 = quantize(r);
        let g: u16 = quantize(g);
        let b: u16 = quantize(b);
        assert(r >> 3 | g << 2 | b << 7 == r / 8 + 32 * (g / 8) + 1024 * (b / 8)) by (bit_vector)
            requires
                r <= 0xF8 && r % 8 == 0,
                g <= 0xF8 && g % 8 == 0,
                b <= 0xF8 && b % 8 == 0,
        ;
        SNESColor(r >> 3 | g << 2 | b << 7)
    }
}

impl From<SNESColor> for Color {
    fn from(color: SNESColor) -> (rgb: Color) {
        let SNESColor(word) = color;
        assert((word & 0x1F) == word % 32 && (word & 0x1F) < 32) by (bit_vector);
        assert(((word >> 5) & 0x1F) == (word / 32) % 32 && ((word >> 5) & 0x1F) < 32)
            by (bit_vector);
        assert(((word >> 10) & 0x1F) == (word / 1024) % 32 && ((word >> 10) & 0x1F) < 32)
            by (bit_vector);
        let r: u8 = (word & 0x1F) as u8;
        let g: u8 = ((word >> 5) & 0x1F) as u8;
        let b: u8 = ((word >> 10) & 0x1F) as u8;
        assert(r << 3 == 8 * r) by (bit_vector)
            requires
                r < 32,
        ;
        assert(g << 3 == 8 * g) by (bit_vector)
            requires
                g < 32,
        ;
        assert(b << 3 == 8 * b) by (bit_vector)
            requires
                b < 32,
        ;
        Color(r << 3, g << 3, b << 3)
    }
}

/// Every channel of a colour made from a colour word is a multiple of 8
/// and at most 248.
pub proof fn lemma_color_channels_are_levels(word: SNESColor)
    ensures
        rgb_color(word).0 == 8 * level_of_word(word.0, 1),
        rgb_color(word).1 == 8 * level_of_word(word.0, 32),
        rgb_color(word).2 == 8 * level_of_word(word.0, 1024),
        rgb_color(word).0 % 8 == 0 && rgb_color(word).0 <= 248,
        rgb_color(word).1 % 8 == 0 && rgb_color(word).1 <= 248,
        rgb_color(word).2 % 8 == 0 && rgb_color(word).2 <= 248,
{
}

/// A colour word that goes to RGB and back comes back unchanged, but for
/// bit 15, which no channel holds and which comes back clear.
pub proof fn lemma_word_round_trip(word: SNESColor)
    ensures
        console_color(rgb_color(word)).0 == word.0 % 0x8000,
{
    let w: u16 = word.0;
    assert((w % 32) + 32 * ((w / 32) % 32) + 1024 * ((w / 1024) % 32) == w % 0x8000)
        by (bit_vector);
    let rgb = rgb_color(word);
    assert(channel_level(rgb.0) == level_of_word(w, 1));
    assert(channel_level(rgb.1) == level_of_word(w, 32));
    assert(channel_level(rgb.2) == level_of_word(w, 1024));
}

/// An RGB colour whose channels are multiples of 8 up to 248 goes to a
/// colour word and back unchanged.
pub proof fn lemma_color_round_trip(color: Color)
    requires
        color.0 % 8 == 0 && color.0 <= 248,
        color.1 % 8 == 0 && color.1 <= 248,
        color.2 % 8 == 0 && color.2 <= 248,
    ensures
        rgb_color(console_color(color)) == color,
{
    let r: u16 = (color.0 / 8) as u16;
    let g: u16 = (color.1 / 8) as u16;
    let b: u16 = (color.2 / 8) as u16;
    assert(channel_level(color.0) == r);
    assert(channel_level(color.1) == g);
    assert(channel_level(color.2) == b);
    assert({
        &&& r + 32 * g + 1024 * b < 0x8000
        &&& (r + 32 * g + 1024 * b) % 32 == r
        &&& ((r + 32 * g + 1024 * b) / 32) % 32 == g
        &&& ((r + 32 * g + 1024 * b) / 1024) % 32 == b
    }) by (bit_vector)
        requires
            r < 32,
            g < 32,
            b < 32,
    ;
}

/// A colour word made from RGB never has bit 15 set.
pub proof fn lemma_word_is_15_bit(color: Color)
    ensures
        console_color(color).0 < 0x8000,
{
}

} // verus!
