use snesgfx::snes::gfx::{Color, SNESColor};

#[test]
fn test() {
    assert_eq!(SNESColor(0x7fff), Color(0xf8, 0xf8, 0xf8).into());
    assert_eq!(SNESColor(0x4210), Color(0x80, 0x80, 0x80).into());
    assert_eq!(SNESColor(0x001f), Color(0xf8, 0x00, 0x00).into());
    assert_eq!(SNESColor(0x03e0), Color(0x00, 0xf8, 0x00).into());
    assert_eq!(SNESColor(0x7c00), Color(0x00, 0x00, 0xf8).into());
    assert_eq!(Color(0xf8, 0xf8, 0xf8), SNESColor(0x7fff).into());
    assert_eq!(Color(0x80, 0x80, 0x80), SNESColor(0x4210).into());
    assert_eq!(Color(0xf8, 0x00, 0x00), SNESColor(0x001f).into());
    assert_eq!(Color(0x00, 0xf8, 0x00), SNESColor(0x03e0).into());
    assert_eq!(Color(0x00, 0x00, 0xf8), SNESColor(0x7c00).into());
}

#[test]
fn channels_round_up_to_the_next_level() {
    assert_eq!(SNESColor::from(Color(0, 0, 0)), SNESColor(0));
    assert_eq!(SNESColor::from(Color(1, 0, 0)), SNESColor(0x0001));
    assert_eq!(SNESColor::from(Color(7, 0, 0)), SNESColor(1));
    assert_eq!(SNESColor::from(Color(8, 0, 0)), SNESColor(1));
    assert_eq!(SNESColor::from(Color(9, 0, 0)), SNESColor(2));
    assert_eq!(SNESColor::from(Color(16, 0, 0)), SNESColor(2));
    assert_eq!(SNESColor::from(Color(0x81, 0, 0)), SNESColor(17));
    assert_eq!(SNESColor::from(Color(0, 1, 0)), SNESColor(1 << 5));
    assert_eq!(SNESColor::from(Color(0, 0, 1)), SNESColor(1 << 10));
    assert_eq!(SNESColor::from(Color(1, 9, 17)), SNESColor(1 | 2 << 5 | 3 << 10));
}

#[test]
fn channels_are_capped_at_the_top_level() {
    assert_eq!(SNESColor::from(Color(0xf0, 0, 0)), SNESColor(30));
    assert_eq!(SNESColor::from(Color(0xf1, 0, 0)), SNESColor(31));
    assert_eq!(SNESColor::from(Color(0xf8, 0, 0)), SNESColor(31));
    assert_eq!(SNESColor::from(Color(0xf9, 0, 0)), SNESColor(31));
    assert_eq!(SNESColor::from(Color(0xff, 0xff, 0xff)), SNESColor(0x7fff));
}

#[test]
fn a_colour_never_sets_bit_15() {
    for r in [0u8, 1, 0x80, 0xf8, 0xf9, 0xff] {
        for b in [0u8, 1, 0x80, 0xf8, 0xf9, 0xff] {
            assert!(SNESColor::from(Color(r, 0xff, b)).0 < 0x8000);
        }
    }
}

#[test]
fn bit_15_of_a_word_is_ignored() {
    assert_eq!(Color::from(SNESColor(0x8000)), Color(0, 0, 0));
    assert_eq!(Color::from(SNESColor(0xffff)), Color(0xf8, 0xf8, 0xf8));
}

#[test]
fn every_word_comes_back_from_rgb() {
    for word in 0..0x8000u16 {
        let rgb = Color::from(SNESColor(word));
        assert_eq!(SNESColor::from(rgb), SNESColor(word));
        assert_eq!(rgb.0 % 8, 0);
        assert_eq!(rgb.1 % 8, 0);
        assert_eq!(rgb.2 % 8, 0);
    }
}
