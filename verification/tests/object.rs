use nacelle::object::toaster::duplicate;
use nacelle::draw::{
    cut_of, is_reserved, CornerStyle, ImageId, ADD_ATLAS, BLUR_IMAGE, GLASS_RANK_1, GLASS_RANK_2, GLASS_RANK_3,
    RESERVED_IMAGE_MIN,
};
use nacelle::object::color_picker;
use nacelle::object::color_picker::{parse, Format, Rgba8, Typed};
use nacelle::object::tooltip::{cell_key, key};

#[test]
fn a_cells_identity_is_its_place_and_not_the_words_in_it() {
    assert_ne!(cell_key(1, 0, "1471"), cell_key(1, 0, "1472"));
    assert_eq!(cell_key(1, 0, "1471"), cell_key(1, 0, "1471"));
    assert_ne!(cell_key(1, 0, ""), cell_key(1, 0, "1471"));
    assert_ne!(cell_key(1, 0, "1471"), cell_key(1, 1, "1471"));
    assert_ne!(cell_key(1, 0, "1471"), cell_key(2, 0, "1471"));
}

#[test]
fn a_named_target_is_keyed_by_its_name() {
    assert_ne!(key("CPU"), key("RAM"));
    assert_eq!(key("CPU"), key("CPU"));
}

#[test]
fn the_notation_ring_steps_through_every_format_once() {
    let mut f = Format::Argb;
    let mut words = Vec::new();
    for _ in 0..6 {
        words.push(f.word());
        f = f.next();
    }
    assert_eq!(f, Format::Argb);
    assert_eq!(words, ["ARGB", "RGBA", "OKLCH", "HSV", "HSL", "DEC"]);
    assert_eq!(Format::all()[3], Format::Hsv);
}

#[test]
fn the_reserved_band_is_the_top_of_the_handle_space() {
    assert!(is_reserved(ImageId(u32::MAX)));
    assert!(is_reserved(ImageId(RESERVED_IMAGE_MIN)));
    assert!(!is_reserved(ImageId(RESERVED_IMAGE_MIN - 1)));
    assert!(!is_reserved(ImageId(0)));
}

fn colour(t: Typed) -> Rgba8 {
    match t {
        Typed::Colour(c) => c,
        other => panic!("expected a colour, got {other:?}"),
    }
}

#[test]
fn a_colour_typed_in_hex_comes_back_the_same_colour() {
    // ARGB: alpha first.
    let c = colour(parse("#80112233", Format::Argb));
    assert_eq!(color_picker::write(c, Format::Argb).unwrap(), "#80112233");
    assert_eq!((c.r, c.g, c.b, c.a), (0x11, 0x22, 0x33, 0x80));
    // The same digits read as RGBA are a different colour.
    let d = colour(parse("#80112233", Format::Rgba));
    assert_eq!((d.r, d.g, d.b, d.a), (0x80, 0x11, 0x22, 0x33));
    assert_eq!(color_picker::write(d, Format::Rgba).unwrap(), "#80112233");
    // Six digits are opaque in both, and come back as eight.
    for (f, want) in [(Format::Argb, "#FF3FE3AE"), (Format::Rgba, "#3FE3AEFF")] {
        let s = colour(parse("#3FE3AE", f));
        assert_eq!(s.a, 255);
        assert_eq!(color_picker::write(s, f).unwrap(), want);
    }
}

#[test]
fn pasted_punctuation_is_forgiven_and_the_digits_are_not() {
    let want = Rgba8 { r: 0x11, g: 0x22, b: 0x33, a: 0x80 };
    assert_eq!(parse("  ##80 11 22\t33 ", Format::Argb), Typed::Colour(want));
    assert_eq!(parse("80112233", Format::Argb), Typed::Colour(want));
    assert_eq!(parse("#80aabbcc", Format::Rgba), Typed::Colour(Rgba8 { r: 0x80, g: 0xAA, b: 0xBB, a: 0xCC }));
    assert_eq!(parse("#8011223", Format::Argb), Typed::Unreadable);
    assert_eq!(parse("#80112G33", Format::Argb), Typed::Unreadable);
    assert_eq!(parse("#", Format::Rgba), Typed::Unreadable);
    assert_eq!(parse("#80#112233", Format::Argb), Typed::Unreadable);
    assert_eq!(parse("oklch(0.8 0.1 160)", Format::Oklch), Typed::Decimal);
    assert_eq!(parse("1, 2, 3", Format::Dec), Typed::Decimal);
}

#[test]
fn dec_writes_four_plain_bytes() {
    let c = Rgba8 { r: 0x3F, g: 0xE3, b: 0xAE, a: 0xCC };
    assert_eq!(color_picker::write(c, Format::Dec).unwrap(), "63, 227, 174, 204");
    assert_eq!(color_picker::write(Rgba8 { r: 0, g: 7, b: 10, a: 255 }, Format::Dec).unwrap(), "0, 7, 10, 255");
    assert_eq!(color_picker::write(c, Format::Argb).unwrap(), "#CC3FE3AE");
    assert_eq!(color_picker::write(c, Format::Rgba).unwrap(), "#3FE3AECC");
    assert!(color_picker::write(c, Format::Oklch).is_none());
    assert!(color_picker::write(c, Format::Hsv).is_none());
    assert!(color_picker::write(c, Format::Hsl).is_none());
}

#[test]
fn every_byte_survives_the_hex_round_trip() {
    for v in 0..=255u8 {
        let c = Rgba8 { r: v, g: 255 - v, b: v / 3, a: v ^ 0x5A };
        for f in [Format::Argb, Format::Rgba] {
            let s = color_picker::write(c, f).unwrap();
            assert_eq!(parse(&s, f), Typed::Colour(c), "{s}");
        }
    }
}

#[test]
fn a_corner_word_the_vocabulary_does_not_name_is_square() {
    assert_eq!(cut_of(1, (Some(1), Some(2))), CornerStyle::Round);
    assert_eq!(cut_of(2, (Some(1), Some(2))), CornerStyle::Chamfer);
    assert_eq!(cut_of(0, (Some(1), Some(2))), CornerStyle::Square);
    assert_eq!(cut_of(2, (None, None)), CornerStyle::Square);
    assert_eq!(cut_of(3, (Some(3), Some(3))), CornerStyle::Round);
}

#[test]
fn eight_typed_digits_are_written_back_as_typed() {
    for f in [Format::Argb, Format::Rgba] {
        let c = match parse("#80FF0A1B", f) {
            Typed::Colour(c) => c,
            other => panic!("not a colour: {other:?}"),
        };
        assert_eq!(color_picker::write(c, f).unwrap(), "#80FF0A1B");
    }
}

#[test]
fn a_toast_like_one_standing_is_not_queued_twice() {
    let q = vec![
        ("WARNING".to_string(), "disk".to_string()),
        ("INFO".to_string(), "saved".to_string()),
        ("INFO".to_string(), "saved".to_string()),
    ];
    assert_eq!(duplicate(&q, "INFO", "saved"), Some(1));
    assert_eq!(duplicate(&q, "INFO", "disk"), None);
    assert_eq!(duplicate(&Vec::new(), "INFO", "saved"), None);
}

#[test]
fn the_named_image_handles_are_reserved() {
    for h in [BLUR_IMAGE, GLASS_RANK_1, GLASS_RANK_2, GLASS_RANK_3, ADD_ATLAS] {
        assert!(is_reserved(ImageId(h)));
    }
    assert!(!is_reserved(ImageId(7)));
}
