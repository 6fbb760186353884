//! The perceptual distance between two colours, and the similarity test built
//! on it.

use crate::color::{
    achromatic, hue, hue_turn, lemma_hue_fraction, lemma_hue_range, lemma_luminance_fraction,
    lemma_saturation_values, lemma_spread, luminance, magnitude, saturation, spread, Color,
};
use crate::ratio::{
    lemma_compare_fractions, lemma_product_within, lemma_quotient, lemma_quotient_times_divisor,
    Ratio,
};
use vstd::prelude::*;

verus! {

/// The difference of the two hues round the colour circle, as a share of half
/// a turn: in `[0, 1]`.
pub open spec fn hue_gap(a: Color, b: Color) -> real {
    let apart = magnitude(hue(a) - hue(b));
    let round = if apart <= 360real - apart {
        apart
    } else {
        360real - apart
    };
    round / 180real
}

/// The difference of the two luminances, as a share of the largest one
/// possible: in `[0, 1]`.
pub open spec fn luminance_gap(a: Color, b: Color) -> real {
    magnitude(luminance(a) - luminance(b)) / 50real
}

/// The difference of the two saturations, as a share of the largest one
/// possible: in `[0, 1]`.
pub open spec fn saturation_gap(a: Color, b: Color) -> real {
    magnitude(saturation(a) - saturation(b)) / 100real
}

/// The perceptual distance of two colours, in `[0, 1]`: hue counts for six
/// tenths, luminance for three, saturation for one.
pub open spec fn distance(a: Color, b: Color) -> real {
    hue_gap(a, b) * (6real / 10real) + luminance_gap(a, b) * (3real / 10real) + saturation_gap(
        a,
        b,
    ) * (1real / 10real)
}

/// Whether two colours are similar under a tolerance: their distance, on a
/// scale of 0 to 50, does not exceed it.
pub open spec fn similar(a: Color, b: Color, tolerance: real) -> bool {
    distance(a, b) * 50real <= tolerance
}

/// The denominator of the hue as a fraction: the spread, or one for an
/// achromatic colour.
pub open spec fn hue_base(c: Color) -> int {
    if achromatic(c) {
        1
    } else {
        spread(c)
    }
}

/// The numerator of the hue as a fraction over `hue_base`.
pub open spec fn hue_count(c: Color) -> int {
    if achromatic(c) {
        0
    } else {
        hue_turn(c)
    }
}

/// The denominator of the scaled distance as a fraction.
pub open spec fn scaled_distance_denom(a: Color, b: Color) -> int {
    102 * (hue_base(a) * hue_base(b))
}

/// The numerator of the scaled distance as a fraction over
/// `scaled_distance_denom`.
pub open spec fn scaled_distance_numer(a: Color, b: Color) -> int {
    let area = hue_base(a) * hue_base(b);
    let cross = hue_count(a) * hue_base(b) - hue_count(b) * hue_base(a);
    let apart = if cross < 0 {
        -cross
    } else {
        cross
    };
    let round = if apart <= 360 * area - apart {
        apart
    } else {
        360 * area - apart
    };
    let lift = if spread(a) <= spread(b) {
        spread(b) - spread(a)
    } else {
        spread(a) - spread(b)
    };
    let tint: int = if achromatic(a) == achromatic(b) {
        0
    } else {
        1
    };
    17 * round + 6 * (area * lift) + 510 * (area * tint)
}

/// The hue as `hue_count` over `hue_base`.
proof fn lemma_hue_parts(c: Color)
    ensures
        hue(c) * (hue_base(c) as real) == hue_count(c) as real,
        1 <= hue_base(c) <= 255,
        0 <= hue_count(c) < 360 * hue_base(c),
{
    lemma_spread(c);
    if !achromatic(c) {
        lemma_hue_fraction(c);
        lemma_quotient_times_divisor(hue_turn(c) as real, spread(c) as real);
    }
}

/// The distance on the scale of 0 to 50, as one fraction of integers.
pub proof fn lemma_scaled_distance(a: Color, b: Color)
    ensures
        distance(a, b) * 50real == scaled_distance_numer(a, b) as real / scaled_distance_denom(
            a,
            b,
        ) as real,
        scaled_distance_denom(a, b) > 0,
        0 <= scaled_distance_numer(a, b) <= 50 * scaled_distance_denom(a, b),
{
    lemma_hue_parts(a);
    lemma_hue_parts(b);
    lemma_spread(a);
    lemma_spread(b);
    lemma_luminance_fraction(a);
    lemma_luminance_fraction(b);
    lemma_saturation_values(a);
    lemma_saturation_values(b);
    let ha = hue(a);
    let hb = hue(b);
    let da = hue_base(a);
    let db = hue_base(b);
    let na = hue_count(a);
    let nb = hue_count(b);
    let area = da * db;
    let cross = na * db - nb * da;
    assert(1 <= area <= 65025) by (nonlinear_arith)
        requires
            1 <= da <= 255,
            1 <= db <= 255,
            area == da * db,
    ;
    let p = area as real;
    assert((ha - hb) * p == cross as real) by (nonlinear_arith)
        requires
            ha * (da as real) == na as real,
            hb * (db as real) == nb as real,
            p == (da * db) as real,
            cross == na * db - nb * da,
    ;
    let apart_r = magnitude(ha - hb);
    let apart = if cross < 0 {
        -cross
    } else {
        cross
    };
    assert(apart_r * p == apart as real) by (nonlinear_arith)
        requires
            (ha - hb) * p == cross as real,
            p >= 1real,
            apart_r == if ha - hb < 0real {
                -(ha - hb)
            } else {
                ha - hb
            },
            apart == if cross < 0 {
                -cross
            } else {
                cross
            },
    ;
    let round_r = if apart_r <= 360real - apart_r {
        apart_r
    } else {
        360real - apart_r
    };
    let round = if apart <= 360 * area - apart {
        apart
    } else {
        360 * area - apart
    };
    assert(round_r * p == round as real) by (nonlinear_arith)
        requires
            apart_r * p == apart as real,
            p == area as real,
            p >= 1real,
            round_r == if apart_r <= 360real - apart_r {
                apart_r
            } else {
                360real - apart_r
            },
            round == if apart <= 360 * area - apart {
                apart
            } else {
                360 * area - apart
            },
    ;
    lemma_hue_range(a);
    lemma_hue_range(b);
    assert(0 <= round <= 180 * area) by (nonlinear_arith)
        requires
            apart_r * p == apart as real,
            0real <= apart_r <= 360real,
            p == area as real,
            p >= 1real,
            round == if apart <= 360 * area - apart {
                apart
            } else {
                360 * area - apart
            },
    ;
    let lift = if spread(a) <= spread(b) {
        spread(b) - spread(a)
    } else {
        spread(a) - spread(b)
    };
    let tint: int = if achromatic(a) == achromatic(b) {
        0
    } else {
        1
    };
    assert(luminance_gap(a, b) == lift as real / 255real);
    assert(saturation_gap(a, b) == tint as real);
    let scaled = distance(a, b) * 50real;
    assert(scaled == round_r / 6real + lift as real / 17real + 5real * tint as real);
    let numer = scaled_distance_numer(a, b);
    let denom = scaled_distance_denom(a, b);
    assert(numer == 17 * round + 6 * (area * lift) + 510 * (area * tint));
    assert(scaled * (denom as real) == numer as real) by (nonlinear_arith)
        requires
            scaled == round_r / 6real + lift as real / 17real + 5real * tint as real,
            round_r * p == round as real,
            p == area as real,
            denom == 102 * area,
            numer == 17 * round + 6 * (area * lift) + 510 * (area * tint),
    ;
    lemma_quotient(numer as real, denom as real, scaled);
    assert(0 <= numer <= 50 * denom) by (nonlinear_arith)
        requires
            numer == 17 * round + 6 * (area * lift) + 510 * (area * tint),
            denom == 102 * area,
            0 <= round <= 180 * area,
            0 <= lift <= 255,
            0 <= tint <= 1,
            area >= 1,
    ;
}

/// Similarity does not depend on the order of the two colours.
pub proof fn lemma_similar_symmetric(a: Color, b: Color, tolerance: real)
    ensures
        similar(a, b, tolerance) == similar(b, a, tolerance),
{
    assert(distance(a, b) == distance(b, a));
}

/// Colours that are similar under a tolerance are similar under every larger
/// one.
pub proof fn lemma_similar_monotone(a: Color, b: Color, lower: real, upper: real)
    requires
        lower <= upper,
        similar(a, b, lower),
    ensures
        similar(a, b, upper),
{
}

/// The distance lies in `[0, 1]`, and is 0 from a colour to itself.
pub proof fn lemma_distance_range(a: Color, b: Color)
    ensures
        0real <= distance(a, b) <= 1real,
        distance(a, a) == 0real,
{
    lemma_scaled_distance(a, b);
    let n = scaled_distance_numer(a, b) as real;
    let d = scaled_distance_denom(a, b) as real;
    lemma_quotient_times_divisor(n, d);
    assert(0real <= n / d <= 50real) by (nonlinear_arith)
        requires
            (n / d) * d == n,
            0real <= n <= 50real * d,
            d > 0real,
    ;
}

/// No two colours are similar under a negative tolerance; a colour is similar
/// to itself under every other; and all colours are similar under a tolerance
/// of 50 or more.
pub proof fn lemma_similar_extremes(a: Color, b: Color, tolerance: real)
    ensures
        tolerance < 0real ==> !similar(a, b, tolerance),
        tolerance >= 0real ==> similar(a, a, tolerance),
        tolerance >= 50real ==> similar(a, b, tolerance),
{
    lemma_distance_range(a, b);
}

/// Similarity under the tolerance `num / den`, decided on integers.
pub proof fn lemma_similar_by_parts(a: Color, b: Color, num: int, den: int)
    requires
        den > 0,
    ensures
        similar(a, b, num as real / den as real) <==> scaled_distance_numer(a, b) * den <= num
            * scaled_distance_denom(a, b),
{
    lemma_scaled_distance(a, b);
    lemma_compare_fractions(
        scaled_distance_numer(a, b),
        scaled_distance_denom(a, b),
        num,
        den,
    );
}

impl Color {
    /// The distance to `other` on the scale of the tolerance, from 0 to 50:
    /// fifty times `distance`.
    pub fn scaled_distance(self, other: Color) -> (d: Ratio)
        ensures
            d@ == distance(self, other) * 50real,
            0real <= d@ <= 50real,
            d.numer() == scaled_distance_numer(self, other),
            d.denom() == scaled_distance_denom(self, other),
    {
        let (na, da) = self.hue_parts();
        let (nb, db) = other.hue_parts();
        let sa = self.spread();
        let sb = other.spread();
        proof {
            lemma_scaled_distance(self, other);
            lemma_distance_range(self, other);
            lemma_product_within(da as int, db as int, 255, 255);
            lemma_product_within(na as int, db as int, 91800, 255);
            lemma_product_within(nb as int, da as int, 91800, 255);
        }
        let area: i64 = da * db;
        let cross: i64 = na * db - nb * da;
        let apart: i64 = if cross < 0 {
            -cross
        } else {
            cross
        };
        let round: i64 = if apart <= 360 * area - apart {
            apart
        } else {
            360 * area - apart
        };
        let lift: i64 = if sa <= sb {
            sb - sa
        } else {
            sa - sb
        };
        let tint: i64 = if (sa == 0) == (sb == 0) {
            0
        } else {
            1
        };
        proof {
            lemma_product_within(area as int, lift as int, 65025, 255);
            lemma_product_within(area as int, tint as int, 65025, 1);
        }
        Ratio::from_parts(17 * round + 6 * (area * lift) + 510 * (area * tint), 102 * area)
    }

    /// Whether `other` is similar to `self` under `tolerance`: their distance,
    /// on the scale of 0 to 50, does not exceed it.
    pub fn is_similar(self, other: Color, tolerance: Ratio) -> (b: bool)
        ensures
            b == similar(self, other, tolerance@),
    {
        self.scaled_distance(other).le(&tolerance)
    }
}

} // verus!
