use palette_extractor::text::{cap, list, records, Ink};
use palette_extractor::Color;

#[test]
fn hex_is_six_upper_case_digits() {
    assert_eq!(Color(255, 0, 0).hex(), "FF0000");
    assert_eq!(Color(0, 0, 0).hex(), "000000");
    assert_eq!(Color(10, 11, 12).hex(), "0A0B0C");
    assert_eq!(Color(171, 205, 239).hex(), "ABCDEF");
    assert_eq!(Color(9, 153, 160).hex(), "0999A0");
    assert_eq!(Color(255, 255, 255).hex(), "FFFFFF");
}

#[test]
fn hex_decodes_back_to_the_colour() {
    let steps = [0u8, 1, 9, 10, 15, 16, 17, 99, 100, 159, 160, 200, 254, 255];
    for &r in steps.iter() {
        for &g in steps.iter() {
            for &b in steps.iter() {
                let text = Color(r, g, b).hex();
                assert_eq!(text.len(), 6);
                assert!(text.chars().all(|ch| ch.is_ascii_digit() || ('A'..='F').contains(&ch)));
                assert_eq!(u8::from_str_radix(&text[0..2], 16).unwrap(), r);
                assert_eq!(u8::from_str_radix(&text[2..4], 16).unwrap(), g);
                assert_eq!(u8::from_str_radix(&text[4..6], 16).unwrap(), b);
                assert_eq!(text, format!("{:02X}{:02X}{:02X}", r, g, b));
            }
        }
    }
}

#[test]
fn label_holds_hex_and_decimal() {
    assert_eq!(Color(255, 128, 0).label(), "#FF8000\t255, 128, 0");
    assert_eq!(Color(0, 0, 0).label(), "#000000\t0, 0, 0");
    assert_eq!(Color(9, 10, 100).label(), "#090A64\t9, 10, 100");
    assert_eq!(Color(99, 101, 200).label(), "#6365C8\t99, 101, 200");
    for v in 0..=255u8 {
        let c = Color(v, 255 - v, v / 2);
        assert_eq!(
            c.label(),
            format!("#{:02X}{:02X}{:02X}\t{}, {}, {}", c.0, c.1, c.2, c.0, c.1, c.2)
        );
    }
}

#[test]
fn ink_is_white_on_dark_and_black_on_light() {
    assert_eq!(Color(0, 0, 0).ink(), Ink::White);
    assert_eq!(Color(255, 255, 255).ink(), Ink::Black);
    assert_eq!(Color(255, 0, 0).ink(), Ink::White);
    assert_eq!(Color(0, 255, 0).ink(), Ink::Black);
    assert_eq!(Color(0, 0, 255).ink(), Ink::White);
    // Relative luminance 127/255 is below one half, 128/255 is above.
    assert_eq!(Color(127, 127, 127).ink(), Ink::White);
    assert_eq!(Color(128, 128, 128).ink(), Ink::Black);
}

#[test]
fn swatch_is_painted_for_the_terminal() {
    assert_eq!(
        Color(255, 128, 0).swatch(),
        "\u{1b}[48;2;255;128;0;30m#FF8000\t255, 128, 0\u{1b}[0m"
    );
    assert_eq!(Color(0, 0, 9).swatch(), "\u{1b}[48;2;0;0;9;37m#000009\t0, 0, 9\u{1b}[0m");
}

#[test]
fn quantity_is_capped_to_what_there_is() {
    assert_eq!(cap(5, 1), 1);
    assert_eq!(cap(5, 5), 5);
    assert_eq!(cap(5, 9), 5);
    assert_eq!(cap(0, 9), 0);
    assert_eq!(cap(3, 0), 0);
    assert_eq!(cap(u16::MAX, usize::MAX), 65535);
}

#[test]
fn list_caps_and_says_so() {
    let palette = vec![Color(10, 20, 30)];
    let listing = list(&palette, 5);
    assert!(listing.short);
    assert_eq!(listing.lines, vec![Color(10, 20, 30).swatch()]);
    assert_eq!(listing.lines[0], "\u{1b}[48;2;10;20;30;37m#0A141E\t10, 20, 30\u{1b}[0m");
}

#[test]
fn list_shows_the_first_entries_in_order() {
    let palette = vec![Color(255, 0, 0), Color(0, 255, 0), Color(0, 0, 255)];
    let listing = list(&palette, 2);
    assert!(!listing.short);
    assert_eq!(listing.lines, vec![palette[0].swatch(), palette[1].swatch()]);
    let all = list(&palette, 3);
    assert!(!all.short);
    assert_eq!(all.lines.len(), 3);
    assert_eq!(all.lines[2], palette[2].swatch());
}

#[test]
fn list_of_empty_palette_is_empty() {
    let listing = list(&Vec::new(), 5);
    assert!(listing.short);
    assert!(listing.lines.is_empty());
    let nothing = list(&Vec::new(), 0);
    assert!(!nothing.short);
    assert!(nothing.lines.is_empty());
}

#[test]
fn records_of_quantity_zero_are_empty() {
    let palette = vec![Color(255, 0, 0), Color(0, 255, 0)];
    assert!(records(&palette, 0).is_empty());
    assert!(records(&Vec::new(), 0).is_empty());
    assert!(records(&Vec::new(), 4).is_empty());
}

#[test]
fn records_hold_channels_and_hex() {
    let palette = vec![Color(255, 0, 0), Color(1, 2, 3), Color(0, 0, 255)];
    let two = records(&palette, 2);
    assert_eq!(two.len(), 2);
    assert_eq!((two[0].r, two[0].g, two[0].b), (255, 0, 0));
    assert_eq!(two[0].hex, "FF0000");
    assert_eq!((two[1].r, two[1].g, two[1].b), (1, 2, 3));
    assert_eq!(two[1].hex, "010203");
    let many = records(&palette, 10);
    assert_eq!(many.len(), 3);
    assert_eq!(many[2].hex, "0000FF");
}
