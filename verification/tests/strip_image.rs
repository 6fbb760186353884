use palette_extractor::strip::strip;
use palette_extractor::Color;

#[test]
fn strip_has_one_block_for_each_entry() {
    let palette = vec![Color(255, 0, 0), Color(0, 255, 0), Color(0, 0, 255)];
    let image = strip(&palette, 3);
    assert_eq!(image.width(), 96);
    assert_eq!(image.height(), 32);
    let colors = image.samples();
    assert_eq!(colors.len(), 96 * 32);
    for y in 0..32usize {
        for x in 0..96usize {
            assert_eq!(colors[y * 96 + x], palette[x / 32]);
        }
    }
}

#[test]
fn strip_is_cut_to_the_quantity() {
    let palette = vec![Color(1, 2, 3), Color(4, 5, 6), Color(7, 8, 9)];
    let image = strip(&palette, 2);
    assert_eq!(image.width(), 64);
    assert_eq!(image.height(), 32);
    let bytes = image.pixels();
    assert_eq!(bytes.len(), 64 * 32 * 3);
    assert_eq!(&bytes[0..3], &[1, 2, 3]);
    assert_eq!(&bytes[31 * 3..32 * 3], &[1, 2, 3]);
    assert_eq!(&bytes[32 * 3..33 * 3], &[4, 5, 6]);
    assert_eq!(&bytes[63 * 3..64 * 3], &[4, 5, 6]);
    assert_eq!(&bytes[bytes.len() - 3..], &[4, 5, 6]);
}

#[test]
fn strip_is_capped_to_the_palette() {
    let palette = vec![Color(10, 20, 30)];
    let image = strip(&palette, 5);
    assert_eq!(image.width(), 32);
    assert_eq!(image.height(), 32);
    assert!(image.samples().iter().all(|&c| c == Color(10, 20, 30)));
}

#[test]
fn strip_of_nothing_has_no_pixels() {
    let empty = strip(&Vec::new(), 5);
    assert_eq!(empty.width(), 0);
    assert_eq!(empty.height(), 32);
    assert!(empty.pixels().is_empty());
    let none = strip(&vec![Color(1, 1, 1)], 0);
    assert_eq!(none.width(), 0);
    assert!(none.pixels().is_empty());
}
