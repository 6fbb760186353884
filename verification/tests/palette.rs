use palette_extractor::palette::{get_palette, palette_of_samples, select_palette};
use palette_extractor::ranking::rank_colors;
use palette_extractor::raster::colors_of;
use palette_extractor::{Color, Raster, Ratio};

fn tol(num: i64, den: i64) -> Ratio {
    Ratio::new(num, den).unwrap()
}

fn image(width: u32, height: u32, pixels: &[Color]) -> Raster {
    let mut bytes = Vec::new();
    for c in pixels {
        bytes.push(c.0);
        bytes.push(c.1);
        bytes.push(c.2);
    }
    Raster::new(width, height, bytes).unwrap()
}

fn repeat(parts: &[(Color, usize)]) -> Vec<Color> {
    let mut out = Vec::new();
    for &(c, n) in parts {
        for _ in 0..n {
            out.push(c);
        }
    }
    out
}

const RED: Color = Color(255, 0, 0);
const GREEN: Color = Color(0, 255, 0);
const BLUE: Color = Color(0, 0, 255);

#[test]
fn two_by_two_red_and_blue() {
    let picture = image(2, 2, &[RED, RED, BLUE, BLUE]);
    assert_eq!(get_palette(&picture, tol(8, 1)), vec![RED, BLUE]);
}

#[test]
fn uniform_image_has_one_entry() {
    let c = Color(10, 20, 30);
    let picture = image(10, 10, &vec![c; 100]);
    assert_eq!(get_palette(&picture, tol(8, 1)), vec![c]);
    assert_eq!(get_palette(&picture, tol(0, 1)), vec![c]);
    assert_eq!(get_palette(&picture, tol(50, 1)), vec![c]);
}

#[test]
fn image_without_pixels_has_empty_palette() {
    let none = Raster::new(0, 0, Vec::new()).unwrap();
    assert!(get_palette(&none, tol(8, 1)).is_empty());
    let flat = Raster::new(7, 0, Vec::new()).unwrap();
    assert!(get_palette(&flat, tol(8, 1)).is_empty());
    let thin = Raster::new(0, 9, Vec::new()).unwrap();
    assert!(get_palette(&thin, tol(8, 1)).is_empty());
    assert!(palette_of_samples(&Vec::new(), tol(8, 1)).is_empty());
}

#[test]
fn one_in_the_blue_channel_at_tolerance_zero() {
    // The two colours are 106/357 apart on the scale of the tolerance, so
    // they stay apart below that and merge from there on.
    let a = Color(10, 20, 30);
    let b = Color(10, 20, 31);
    let samples = repeat(&[(a, 500), (b, 400)]);
    assert_eq!(palette_of_samples(&samples, tol(0, 1)), vec![a, b]);
    assert_eq!(palette_of_samples(&samples, tol(105, 357)), vec![a, b]);
    assert_eq!(palette_of_samples(&samples, tol(106, 357)), vec![a]);
    assert_eq!(palette_of_samples(&samples, tol(8, 1)), vec![a]);
}

#[test]
fn larger_image_is_sampled_down() {
    let mut pixels = Vec::new();
    for _y in 0..60 {
        for x in 0..90 {
            pixels.push(if x < 60 { GREEN } else { RED });
        }
    }
    let picture = image(90, 60, &pixels);
    assert_eq!(get_palette(&picture, tol(8, 1)), vec![GREEN, RED]);
}

#[test]
fn downsampling_gives_the_grid() {
    let picture = image(2, 2, &[RED, GREEN, BLUE, RED]);
    let grid = picture.downsample().unwrap();
    assert_eq!(grid.width(), 30);
    assert_eq!(grid.height(), 30);
    assert_eq!(grid.pixels().len(), 2700);
    let samples = grid.samples();
    assert_eq!(samples.len(), 900);
    assert_eq!(samples[0], RED);
    assert_eq!(samples[29], GREEN);
    assert_eq!(samples[29 * 30], BLUE);
    assert_eq!(samples[899], RED);
    assert_eq!(samples.iter().filter(|&&c| c == RED).count(), 450);
    assert_eq!(samples.iter().filter(|&&c| c == GREEN).count(), 225);
    assert_eq!(samples.iter().filter(|&&c| c == BLUE).count(), 225);
    assert_eq!(get_palette(&picture, tol(8, 1)), vec![RED, GREEN, BLUE]);
}

#[test]
fn grid_sized_image_keeps_its_pixels() {
    let mut pixels = Vec::new();
    for i in 0..900u32 {
        pixels.push(Color((i % 256) as u8, (i / 4) as u8, 7));
    }
    let picture = image(30, 30, &pixels);
    let grid = picture.downsample().unwrap();
    assert_eq!(grid.samples(), pixels);
}

#[test]
fn image_without_pixels_is_not_sampled() {
    assert!(Raster::new(0, 5, Vec::new()).unwrap().downsample().is_none());
    assert!(Raster::new(5, 0, Vec::new()).unwrap().downsample().is_none());
}

#[test]
fn raster_needs_three_bytes_a_pixel() {
    assert!(Raster::new(2, 2, vec![0; 12]).is_some());
    assert!(Raster::new(2, 2, vec![0; 11]).is_none());
    assert!(Raster::new(2, 2, vec![0; 13]).is_none());
    assert!(Raster::new(0, 0, vec![0; 1]).is_none());
    assert!(Raster::new(u32::MAX, u32::MAX, vec![0; 3]).is_none());
    let r = Raster::new(1, 2, vec![1, 2, 3, 4, 5, 6]).unwrap();
    assert_eq!(r.width(), 1);
    assert_eq!(r.height(), 2);
    assert_eq!(r.pixels(), &vec![1, 2, 3, 4, 5, 6]);
    assert_eq!(r.samples(), vec![Color(1, 2, 3), Color(4, 5, 6)]);
}

#[test]
fn bytes_become_colours_three_at_a_time() {
    assert_eq!(colors_of(&vec![]), vec![]);
    assert_eq!(colors_of(&vec![1, 2]), vec![]);
    assert_eq!(colors_of(&vec![1, 2, 3]), vec![Color(1, 2, 3)]);
    assert_eq!(colors_of(&vec![1, 2, 3, 4, 5, 6, 7]), vec![Color(1, 2, 3), Color(4, 5, 6)]);
}

#[test]
fn colours_are_ranked_by_count_then_by_first_sight() {
    let a = Color(200, 100, 50);
    let b = Color(12, 200, 99);
    let c = Color(220, 90, 60);
    let black = Color(0, 0, 0);
    let white = Color(255, 255, 255);
    let samples = repeat(&[(a, 3), (b, 5), (c, 2), (b, 1), (black, 4), (white, 4)]);
    assert_eq!(rank_colors(&samples), vec![b, black, white, a, c]);
    assert_eq!(rank_colors(&vec![RED, BLUE, BLUE, RED]), vec![RED, BLUE]);
    assert_eq!(rank_colors(&vec![BLUE, RED, RED, BLUE]), vec![BLUE, RED]);
    assert_eq!(rank_colors(&vec![BLUE, RED, RED]), vec![RED, BLUE]);
    assert_eq!(rank_colors(&Vec::new()), Vec::new());
}

#[test]
fn ranking_holds_each_colour_once() {
    let mut samples = Vec::new();
    for i in 0..900u32 {
        samples.push(Color((i % 7) as u8, (i % 11) as u8, (i % 3) as u8));
    }
    let ranked = rank_colors(&samples);
    assert_eq!(ranked.len(), 231);
    for (i, x) in ranked.iter().enumerate() {
        assert!(samples.contains(x));
        for y in ranked[i + 1..].iter() {
            assert_ne!(x, y);
            let nx = samples.iter().filter(|&c| c == x).count();
            let ny = samples.iter().filter(|&c| c == y).count();
            let fx = samples.iter().position(|c| c == x).unwrap();
            let fy = samples.iter().position(|c| c == y).unwrap();
            assert!(nx > ny || (nx == ny && fx < fy));
        }
    }
}

#[test]
fn palette_by_tolerance() {
    let a = Color(200, 100, 50);
    let b = Color(12, 200, 99);
    let c = Color(220, 90, 60);
    let black = Color(0, 0, 0);
    let white = Color(255, 255, 255);
    let samples = repeat(&[(a, 3), (b, 5), (c, 2), (b, 1), (black, 4), (white, 4)]);
    assert_eq!(palette_of_samples(&samples, tol(-1, 1)), vec![b, black, white, a, c]);
    assert_eq!(palette_of_samples(&samples, tol(0, 1)), vec![b, black, a, c]);
    assert_eq!(palette_of_samples(&samples, tol(3, 1)), vec![b, black, a]);
    assert_eq!(palette_of_samples(&samples, tol(8, 1)), vec![b, black, a]);
    assert_eq!(palette_of_samples(&samples, tol(20, 1)), vec![b, black]);
    assert_eq!(palette_of_samples(&samples, tol(30, 1)), vec![b, black]);
    assert_eq!(palette_of_samples(&samples, tol(50, 1)), vec![b]);
}

#[test]
fn no_two_entries_of_a_palette_are_similar() {
    let mut samples = Vec::new();
    for i in 0..900u32 {
        samples.push(Color((i * 37 % 256) as u8, (i * 101 % 256) as u8, (i * 7 % 256) as u8));
    }
    for t in [tol(0, 1), tol(1, 2), tol(3, 1), tol(8, 1), tol(15, 1), tol(29, 1)] {
        let palette = palette_of_samples(&samples, t);
        assert!(!palette.is_empty());
        for (i, &x) in palette.iter().enumerate() {
            for (j, &y) in palette.iter().enumerate() {
                if i != j {
                    assert!(!x.is_similar(y, t));
                }
            }
        }
        for c in samples.iter() {
            assert!(palette.iter().any(|&p| p == *c || p.is_similar(*c, t)));
        }
    }
}

#[test]
fn palette_shrinks_as_tolerance_grows_on_plain_colours() {
    let samples = repeat(&[(RED, 5), (Color(250, 10, 10), 4), (GREEN, 3), (Color(10, 250, 10), 2), (BLUE, 1)]);
    let mut last = usize::MAX;
    for tenth in 0..520 {
        let n = palette_of_samples(&samples, tol(tenth, 10)).len();
        assert!(n <= last);
        last = n;
    }
    assert_eq!(last, 1);
}

#[test]
fn palette_can_grow_where_similarity_does_not_chain() {
    let a = Color(128, 192, 192);
    let b = Color(192, 192, 128);
    let c = Color(64, 192, 0);
    let d = Color(255, 128, 128);
    let samples = repeat(&[(a, 4), (b, 3), (c, 2), (d, 1)]);
    assert_eq!(palette_of_samples(&samples, tol(15, 1)), vec![a, b]);
    assert_eq!(palette_of_samples(&samples, tol(20, 1)), vec![a, c, d]);
    // At 20 the first colour is similar to the second and the second to the
    // third, but the first is not similar to the third.
    assert!(a.is_similar(b, tol(20, 1)));
    assert!(b.is_similar(c, tol(20, 1)));
    assert!(!a.is_similar(c, tol(20, 1)));
}

#[test]
fn selection_walks_in_the_given_order() {
    let a = Color(128, 192, 192);
    let b = Color(192, 192, 128);
    let c = Color(64, 192, 0);
    assert_eq!(select_palette(&vec![a, b, c], tol(20, 1)), vec![a, c]);
    assert_eq!(select_palette(&vec![b, a, c], tol(20, 1)), vec![b]);
    assert_eq!(select_palette(&vec![c, b, a], tol(20, 1)), vec![c, a]);
    assert_eq!(select_palette(&vec![a, a, a], tol(-1, 1)), vec![a, a, a]);
    assert_eq!(select_palette(&Vec::new(), tol(8, 1)), Vec::new());
}

#[test]
fn samples_and_entries_are_pixels_of_the_image() {
    let mut pixels = Vec::new();
    for y in 0..47u32 {
        for x in 0..101u32 {
            pixels.push(Color((x * 2) as u8, (y * 5) as u8, ((x + y) % 256) as u8));
        }
    }
    let picture = image(101, 47, &pixels);
    let grid = picture.downsample().unwrap();
    assert_eq!((grid.width(), grid.height()), (30, 30));
    for c in grid.samples() {
        assert!(pixels.contains(&c));
    }
    let palette = get_palette(&picture, tol(8, 1));
    assert!(!palette.is_empty());
    assert!(palette.len() <= 900);
    for c in palette.iter() {
        assert!(pixels.contains(c));
    }
    for (i, &x) in palette.iter().enumerate() {
        for (j, &y) in palette.iter().enumerate() {
            if i != j {
                assert!(!x.is_similar(y, tol(8, 1)));
            }
        }
    }
}

#[test]
fn every_size_is_sampled_from_its_own_pixels() {
    let sizes = [
        (1u32, 1u32),
        (1, 7),
        (7, 1),
        (2, 3),
        (29, 31),
        (30, 30),
        (31, 29),
        (59, 61),
        (64, 64),
        (100, 3),
        (3, 100),
        (257, 129),
    ];
    for &(width, height) in sizes.iter() {
        let mut pixels = Vec::new();
        for y in 0..height {
            for x in 0..width {
                pixels.push(Color((x % 256) as u8, (y % 256) as u8, ((x / 256) * 16 + y / 256) as u8));
            }
        }
        let picture = image(width, height, &pixels);
        let grid = picture.downsample().unwrap();
        let samples = grid.samples();
        assert_eq!(samples.len(), 900);
        for gy in 0..30usize {
            for gx in 0..30usize {
                let c = samples[gy * 30 + gx];
                let x = c.0 as u32 + 256 * (c.2 as u32 / 16);
                let y = c.1 as u32 + 256 * (c.2 as u32 % 16);
                assert!(x < width && y < height);
                assert_eq!(pixels[(y * width + x) as usize], c);
                // The pixel lies in the part of the image that the grid cell covers.
                assert!(x * 30 <= (gx as u32 + 1) * width && (x + 1) * 30 >= gx as u32 * width);
                assert!(y * 30 <= (gy as u32 + 1) * height && (y + 1) * 30 >= gy as u32 * height);
            }
        }
    }
}
