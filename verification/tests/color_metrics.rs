use palette_extractor::{Color, Ratio};

fn value(r: Ratio) -> f64 {
    r.numerator() as f64 / r.denominator() as f64
}

fn same(r: Ratio, num: i64, den: i64) -> bool {
    (r.numerator() as i128) * (den as i128) == (num as i128) * (r.denominator() as i128)
}

#[test]
fn primary_hues() {
    assert!(same(Color(255, 0, 0).hue(), 0, 1));
    assert!(same(Color(255, 255, 0).hue(), 60, 1));
    assert!(same(Color(0, 255, 0).hue(), 120, 1));
    assert!(same(Color(0, 255, 255).hue(), 180, 1));
    assert!(same(Color(0, 0, 255).hue(), 240, 1));
    assert!(same(Color(255, 0, 255).hue(), 300, 1));
}

#[test]
fn negative_hue_wraps_round() {
    assert!(same(Color(255, 0, 1).hue(), 6116, 17));
    assert!(same(Color(255, 0, 255).hue(), 300, 1));
}

#[test]
fn hue_of_mixed_colours() {
    assert!(same(Color(200, 100, 50).hue(), 20, 1));
    assert!(same(Color(10, 20, 30).hue(), 210, 1));
    assert!(same(Color(10, 20, 31).hue(), 1480, 7));
    assert!(same(Color(12, 200, 99).hue(), 6945, 47));
    assert!(same(Color(255, 128, 0).hue(), 512, 17));
}

#[test]
fn hue_tie_takes_red_before_green_before_blue() {
    // Red and green both attain the peak: the red branch gives 60 degrees.
    assert!(same(Color(200, 200, 10).hue(), 60, 1));
    // Green and blue both attain the peak: the green branch gives 180 degrees.
    assert!(same(Color(10, 200, 200).hue(), 180, 1));
    // Red and blue both attain the peak: the red branch is negative and wraps.
    assert!(same(Color(200, 10, 200).hue(), 300, 1));
}

#[test]
fn hue_stays_within_the_circle() {
    let steps = [0u8, 1, 2, 63, 64, 127, 128, 129, 200, 254, 255];
    for &r in steps.iter() {
        for &g in steps.iter() {
            for &b in steps.iter() {
                let h = Color(r, g, b).hue();
                assert!(h.denominator() > 0);
                assert!(h.numerator() >= 0);
                assert!(h.numerator() < 360 * h.denominator());
            }
        }
    }
}

#[test]
fn grey_has_no_hue_and_no_saturation() {
    for v in [0u8, 1, 17, 128, 254, 255] {
        let grey = Color(v, v, v);
        assert!(same(grey.hue(), 0, 1));
        assert!(same(grey.saturation(), 0, 1));
        assert!(same(grey.luminance(), 0, 1));
    }
}

#[test]
fn luminance_is_half_the_spread() {
    assert!(same(Color(255, 0, 0).luminance(), 50, 1));
    assert!(same(Color(200, 100, 50).luminance(), 500, 17));
    assert!(same(Color(10, 20, 30).luminance(), 200, 51));
    assert!(same(Color(255, 255, 255).luminance(), 0, 1));
    assert!((value(Color(200, 100, 50).luminance()) - 29.411764).abs() < 1e-5);
}

#[test]
fn saturation_is_full_for_every_chromatic_colour() {
    assert!(same(Color(255, 0, 0).saturation(), 100, 1));
    assert!(same(Color(10, 20, 30).saturation(), 100, 1));
    assert!(same(Color(0, 0, 1).saturation(), 100, 1));
    assert!(same(Color(254, 255, 255).saturation(), 100, 1));
}

#[test]
fn relative_luminance_weights_the_channels() {
    assert!(same(Color(0, 0, 0).relative_luminance(), 0, 1));
    assert!(same(Color(255, 255, 255).relative_luminance(), 1, 1));
    assert!(same(Color(255, 0, 0).relative_luminance(), 2126, 10000));
    assert!(same(Color(0, 255, 0).relative_luminance(), 7152, 10000));
    assert!(same(Color(0, 0, 255).relative_luminance(), 722, 10000));
    assert!(same(Color(128, 128, 128).relative_luminance(), 128, 255));
    assert!(same(Color(10, 20, 30).relative_luminance(), 4649, 63750));
}

#[test]
fn metrics_agree_with_floating_point_formulas() {
    let steps = [0u8, 5, 40, 90, 128, 201, 255];
    for &r in steps.iter() {
        for &g in steps.iter() {
            for &b in steps.iter() {
                let c = Color(r, g, b);
                let (rf, gf, bf) = (r as f64 / 255.0, g as f64 / 255.0, b as f64 / 255.0);
                let max = rf.max(gf).max(bf);
                let min = rf.min(gf).min(bf);
                let lum = (max - min) / 2.0 * 100.0;
                assert!((value(c.luminance()) - lum).abs() < 1e-9);
                let sat = if max == min {
                    0.0
                } else {
                    (max - min) / (1.0 - (2.0 * (lum / 100.0) - 1.0).abs()) * 100.0
                };
                assert!((value(c.saturation()) - sat).abs() < 1e-9);
                let hue = if max == min {
                    0.0
                } else {
                    let raw = if r >= g && r >= b {
                        (gf - bf) / (max - min)
                    } else if g >= b {
                        2.0 + (bf - rf) / (max - min)
                    } else {
                        4.0 + (rf - gf) / (max - min)
                    } * 60.0;
                    if raw < 0.0 {
                        raw + 360.0
                    } else {
                        raw
                    }
                };
                assert!((value(c.hue()) - hue).abs() < 1e-9);
                let rel = 0.2126 * rf + 0.7152 * gf + 0.0722 * bf;
                assert!((value(c.relative_luminance()) - rel).abs() < 1e-9);
            }
        }
    }
}

#[test]
fn ratio_needs_a_positive_denominator() {
    assert!(Ratio::new(1, 0).is_none());
    assert!(Ratio::new(1, -3).is_none());
    let half = Ratio::new(1, 2).unwrap();
    assert_eq!(half.numerator(), 1);
    assert_eq!(half.denominator(), 2);
    let seven = Ratio::whole(7);
    assert_eq!(seven.numerator(), 7);
    assert_eq!(seven.denominator(), 1);
}

#[test]
fn ratio_comparison_is_by_value() {
    let half = Ratio::new(1, 2).unwrap();
    let two_quarters = Ratio::new(2, 4).unwrap();
    let third = Ratio::new(1, 3).unwrap();
    let minus = Ratio::new(-5, 7).unwrap();
    assert!(half.le(&two_quarters));
    assert!(two_quarters.le(&half));
    assert!(third.le(&half));
    assert!(!half.le(&third));
    assert!(minus.le(&third));
    assert!(!third.le(&minus));
    let huge = Ratio::new(i64::MAX, 1).unwrap();
    let tiny = Ratio::new(i64::MIN, 1).unwrap();
    assert!(tiny.le(&huge));
    assert!(!huge.le(&tiny));
}

#[test]
fn longer_names_give_the_same_metrics() {
    let c = Color(12, 200, 99);
    assert!(same(c.get_hue(), 6945, 47));
    assert!(same(c.get_lum(), 1880, 51));
    assert!(same(c.get_sat(), 100, 1));
    assert!(same(c.get_rel_lum(), 50913, 85000));
    let grey = Color(7, 7, 7);
    assert!(same(grey.get_hue(), 0, 1));
    assert!(same(grey.get_sat(), 0, 1));
}

#[test]
fn colour_from_the_first_three_bytes() {
    assert_eq!(Color::from_slice(&[1, 2, 3]), Color(1, 2, 3));
    assert_eq!(Color::from_slice(&[9, 8, 7, 6, 5]), Color(9, 8, 7));
}
