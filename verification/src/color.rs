//! The colour value type and its derived metrics.
//!
//! Each metric is specified as a real number, by the formula that defines it on
//! channels normalised to `[0, 1]`, and computed exactly as a [`Ratio`].

use crate::ratio::{lemma_quotient, lemma_quotient_times_divisor, Ratio};
use vstd::prelude::*;

verus! {

/// An sRGB colour with eight bits per channel: red, green, blue.
#[derive(Debug, PartialEq, Eq, Clone, Copy, Hash, Structural)]
pub struct Color(pub u8, pub u8, pub u8);

/// A channel value normalised to `[0, 1]`.
pub open spec fn unit(x: u8) -> real {
    x as real / 255real
}

/// The largest of three numbers.
pub open spec fn largest(a: real, b: real, c: real) -> real {
    if a >= b && a >= c {
        a
    } else if b >= a && b >= c {
        b
    } else {
        c
    }
}

/// The smallest of three numbers.
pub open spec fn smallest(a: real, b: real, c: real) -> real {
    if a <= b && a <= c {
        a
    } else if b <= a && b <= c {
        b
    } else {
        c
    }
}

/// The absolute value of a real number.
pub open spec fn magnitude(x: real) -> real {
    if x < 0real {
        -x
    } else {
        x
    }
}

/// The largest normalised channel of `c`.
pub open spec fn peak(c: Color) -> real {
    largest(unit(c.0), unit(c.1), unit(c.2))
}

/// The smallest normalised channel of `c`.
pub open spec fn trough(c: Color) -> real {
    smallest(unit(c.0), unit(c.1), unit(c.2))
}

/// Whether all three channels of `c` are equal.
pub open spec fn achromatic(c: Color) -> bool {
    c.0 == c.1 && c.1 == c.2
}

/// The hue of `c` in degrees.
///
/// It is 0 for an achromatic colour. Otherwise it is the six-piece hue formula,
/// whose branch is chosen by the channel that attains the peak (red before
/// green before blue where several do), times 60, plus 360 where that is
/// negative.
pub open spec fn hue(c: Color) -> real {
    let r = unit(c.0);
    let g = unit(c.1);
    let b = unit(c.2);
    let hi = peak(c);
    let lo = trough(c);
    if hi == lo {
        0real
    } else {
        let sextant = if hi == r {
            (g - b) / (hi - lo)
        } else if hi == g {
            2real + (b - r) / (hi - lo)
        } else {
            4real + (r - g) / (hi - lo)
        };
        let degrees = sextant * 60real;
        if degrees < 0real {
            degrees + 360real
        } else {
            degrees
        }
    }
}

/// The luminance of `c` in percent: half the spread between the peak and the
/// trough, times 100.
pub open spec fn luminance(c: Color) -> real {
    (peak(c) - trough(c)) / 2real * 100real
}

/// The saturation of `c` in percent: 0 for an achromatic colour, otherwise the
/// spread over `1 - |2 * (luminance / 100) - 1|`, times 100.
pub open spec fn saturation(c: Color) -> real {
    let spread = peak(c) - trough(c);
    if spread == 0real {
        0real
    } else {
        spread / (1real - magnitude(2real * (luminance(c) / 100real) - 1real)) * 100real
    }
}

/// The relative luminance of `c`: its normalised channels weighted by
/// 0.2126, 0.7152 and 0.0722.
pub open spec fn relative_luminance(c: Color) -> real {
    2126real / 10000real * unit(c.0) + 7152real / 10000real * unit(c.1) + 722real / 10000real
        * unit(c.2)
}

/// The largest channel of `c`.
pub open spec fn highest(c: Color) -> int {
    if c.0 >= c.1 && c.0 >= c.2 {
        c.0 as int
    } else if c.1 >= c.2 {
        c.1 as int
    } else {
        c.2 as int
    }
}

/// The smallest channel of `c`.
pub open spec fn lowest(c: Color) -> int {
    if c.0 <= c.1 && c.0 <= c.2 {
        c.0 as int
    } else if c.1 <= c.2 {
        c.1 as int
    } else {
        c.2 as int
    }
}

/// The spread between the largest and the smallest channel, on the scale of
/// the channels themselves.
pub open spec fn spread(c: Color) -> int {
    highest(c) - lowest(c)
}

/// The hue of a chromatic colour, times its spread: an integer.
pub open spec fn hue_turn(c: Color) -> int {
    let d = spread(c);
    let raw = if c.0 >= c.1 && c.0 >= c.2 {
        60 * (c.1 - c.2)
    } else if c.1 >= c.2 {
        120 * d + 60 * (c.2 - c.0)
    } else {
        240 * d + 60 * (c.0 - c.1)
    };
    if raw < 0 {
        raw + 360 * d
    } else {
        raw
    }
}

/// The spread of the normalised channels is the spread of the channels over 255.
pub proof fn lemma_spread(c: Color)
    ensures
        peak(c) - trough(c) == spread(c) as real / 255real,
        0 <= spread(c) <= 255,
        spread(c) == 0 <==> achromatic(c),
        peak(c) == trough(c) <==> achromatic(c),
{
}

/// One piece of the hue formula on integers: with `p` the difference of two
/// channels, `d` the spread and `base` the piece's offset.
proof fn lemma_piece(p: int, d: int, base: int)
    requires
        d > 0,
    ensures
        ({
            let sextant = base as real + (p as real / 255real) / (d as real / 255real);
            let turn = 60 * base * d + 60 * p;
            &&& sextant * 60real == turn as real / d as real
            &&& (sextant * 60real < 0real <==> turn < 0)
            &&& sextant * 60real + 360real == (turn + 360 * d) as real / d as real
        }),
{
    let pr = p as real;
    let dr = d as real;
    let q = pr / dr;
    lemma_quotient_times_divisor(pr, dr);
    assert(q * (dr / 255real) == pr / 255real) by (nonlinear_arith)
        requires
            q * dr == pr,
    ;
    lemma_quotient(pr / 255real, dr / 255real, q);
    let sextant = base as real + (pr / 255real) / (dr / 255real);
    assert(sextant == base as real + q);
    let turn = 60 * base * d + 60 * p;
    assert((sextant * 60real) * dr == turn as real) by (nonlinear_arith)
        requires
            sextant == base as real + q,
            q * dr == pr,
            pr == p as real,
            dr == d as real,
            turn == 60 * base * d + 60 * p,
    ;
    lemma_quotient(turn as real, dr, sextant * 60real);
    assert((sextant * 60real + 360real) * dr == (turn + 360 * d) as real) by (nonlinear_arith)
        requires
            (sextant * 60real) * dr == turn as real,
            dr == d as real,
    ;
    lemma_quotient((turn + 360 * d) as real, dr, sextant * 60real + 360real);
    assert(sextant * 60real < 0real <==> turn < 0) by (nonlinear_arith)
        requires
            (sextant * 60real) * dr == turn as real,
            dr == d as real,
            d > 0,
    ;
}

/// The hue of a chromatic colour is `hue_turn` over `spread`.
pub proof fn lemma_hue_fraction(c: Color)
    requires
        !achromatic(c),
    ensures
        hue(c) == hue_turn(c) as real / spread(c) as real,
        0 <= hue_turn(c) < 360 * spread(c),
{
    lemma_spread(c);
    let d = spread(c);
    if c.0 >= c.1 && c.0 >= c.2 {
        lemma_piece(c.1 - c.2, d, 0);
    } else if c.1 >= c.2 {
        lemma_piece(c.2 - c.0, d, 2);
    } else {
        lemma_piece(c.0 - c.1, d, 4);
    }
}

/// The luminance is ten fifty-firsts of the spread.
pub proof fn lemma_luminance_fraction(c: Color)
    ensures
        luminance(c) == (100 * spread(c)) as real / 510real,
        0real <= luminance(c) <= 50real,
{
    lemma_spread(c);
}

/// The saturation of a chromatic colour is 100: the divisor in its formula is
/// the spread itself.
pub proof fn lemma_saturation_values(c: Color)
    ensures
        saturation(c) == if achromatic(c) {
            0real
        } else {
            100real
        },
{
    lemma_spread(c);
    if !achromatic(c) {
        let s = peak(c) - trough(c);
        assert(1real - magnitude(2real * (luminance(c) / 100real) - 1real) == s);
        lemma_quotient(s, s, 1real);
    }
}

/// The relative luminance as one fraction.
pub proof fn lemma_relative_luminance_fraction(c: Color)
    ensures
        relative_luminance(c) == (2126 * c.0 + 7152 * c.1 + 722 * c.2) as real / 2550000real,
        0real <= relative_luminance(c) <= 1real,
{
}

/// The hue lies in `[0, 360)`.
pub proof fn lemma_hue_range(c: Color)
    ensures
        0real <= hue(c) < 360real,
{
    lemma_spread(c);
    if !achromatic(c) {
        lemma_hue_fraction(c);
        let t = hue_turn(c) as real;
        let d = spread(c) as real;
        lemma_quotient_times_divisor(t, d);
        assert(0real <= t / d < 360real) by (nonlinear_arith)
            requires
                (t / d) * d == t,
                0real <= t < 360real * d,
                d > 0real,
        ;
    }
}

/// An achromatic colour has hue 0 and saturation 0.
pub proof fn lemma_achromatic(c: Color)
    requires
        achromatic(c),
    ensures
        hue(c) == 0real,
        saturation(c) == 0real,
        luminance(c) == 0real,
{
}

/// The largest of three channel values; the first of them where several are.
fn largest_of(a: u8, b: u8, c: u8) -> (m: u8)
    ensures
        m == highest(Color(a, b, c)),
        unit(m) == largest(unit(a), unit(b), unit(c)),
{
    if a >= b && a >= c {
        a
    } else if b >= a && b >= c {
        b
    } else {
        c
    }
}

/// The smallest of three channel values; the first of them where several are.
fn smallest_of(a: u8, b: u8, c: u8) -> (m: u8)
    ensures
        m == lowest(Color(a, b, c)),
        unit(m) == smallest(unit(a), unit(b), unit(c)),
{
    if a <= b && a <= c {
        a
    } else if b <= a && b <= c {
        b
    } else {
        c
    }
}

impl Color {
    /// The spread between the largest and the smallest channel.
    pub(crate) fn spread(self) -> (d: i64)
        ensures
            d == spread(self),
            0 <= d <= 255,
            d == 0 <==> achromatic(self),
    {
        proof {
            lemma_spread(self);
        }
        (largest_of(self.0, self.1, self.2) - smallest_of(self.0, self.1, self.2)) as i64
    }

    /// The hue as a numerator and a denominator: `hue_turn` over `spread` for a
    /// chromatic colour, zero over one otherwise.
    pub(crate) fn hue_parts(self) -> (parts: (i64, i64))
        ensures
            hue(self) == parts.0 as real / parts.1 as real,
            1 <= parts.1 <= 255,
            0 <= parts.0 < 360 * parts.1,
            achromatic(self) ==> parts.0 == 0 && parts.1 == 1,
            !achromatic(self) ==> parts.0 == hue_turn(self) && parts.1 == spread(self),
    {
        let hi = largest_of(self.0, self.1, self.2);
        let lo = smallest_of(self.0, self.1, self.2);
        proof {
            lemma_spread(self);
        }
        if hi == lo {
            proof {
                lemma_quotient(0real, 1real, 0real);
            }
            return (0, 1);
        }
        proof {
            lemma_hue_fraction(self);
        }
        let d: i64 = (hi - lo) as i64;
        let r: i64 = self.0 as i64;
        let g: i64 = self.1 as i64;
        let b: i64 = self.2 as i64;
        let raw: i64 = if hi == self.0 {
            60 * (g - b)
        } else if hi == self.1 {
            120 * d + 60 * (b - r)
        } else {
            240 * d + 60 * (r - g)
        };
        let turn: i64 = if raw < 0 {
            raw + 360 * d
        } else {
            raw
        };
        (turn, d)
    }

    /// The hue in degrees, in `[0, 360)`: `hue_turn` over `spread` for a
    /// chromatic colour, zero over one otherwise.
    pub fn hue(self) -> (h: Ratio)
        ensures
            h@ == hue(self),
            0real <= h@ < 360real,
            achromatic(self) ==> h.numer() == 0 && h.denom() == 1,
            !achromatic(self) ==> h.numer() == hue_turn(self) && h.denom() == spread(self),
    {
        proof {
            lemma_hue_range(self);
        }
        let (turn, d) = self.hue_parts();
        Ratio::from_parts(turn, d)
    }

    /// The luminance in percent, in `[0, 50]`: a hundred times the spread,
    /// over 510.
    pub fn luminance(self) -> (l: Ratio)
        ensures
            l@ == luminance(self),
            0real <= l@ <= 50real,
            l.numer() == 100 * spread(self),
            l.denom() == 510,
    {
        proof {
            lemma_luminance_fraction(self);
        }
        let d = self.spread();
        Ratio::from_parts(100 * d, 510)
    }

    /// The saturation in percent: 0 for an achromatic colour, 100 otherwise.
    pub fn saturation(self) -> (s: Ratio)
        ensures
            s@ == saturation(self),
            s@ == if achromatic(self) {
                0real
            } else {
                100real
            },
    {
        proof {
            lemma_saturation_values(self);
            lemma_spread(self);
        }
        if self.spread() == 0 {
            Ratio::whole(0)
        } else {
            Ratio::whole(100)
        }
    }

    /// The relative luminance, in `[0, 1]`: the channels weighted by 2126,
    /// 7152 and 722, over 2550000.
    pub fn relative_luminance(self) -> (y: Ratio)
        ensures
            y@ == relative_luminance(self),
            0real <= y@ <= 1real,
            y.numer() == 2126 * self.0 + 7152 * self.1 + 722 * self.2,
            y.denom() == 2550000,
    {
        proof {
            lemma_relative_luminance_fraction(self);
        }
        let r: i64 = self.0 as i64;
        let g: i64 = self.1 as i64;
        let b: i64 = self.2 as i64;
        Ratio::from_parts(2126 * r + 7152 * g + 722 * b, 2550000)
    }

    /// The hue, as `hue` gives it.
    pub fn get_hue(&self) -> (h: Ratio)
        ensures
            h@ == hue(*self),
            0real <= h@ < 360real,
    {
        self.hue()
    }

    /// The luminance, as `luminance` gives it.
    pub fn get_lum(&self) -> (l: Ratio)
        ensures
            l@ == luminance(*self),
            0real <= l@ <= 50real,
    {
        self.luminance()
    }

    /// The saturation, as `saturation` gives it.
    pub fn get_sat(&self) -> (s: Ratio)
        ensures
            s@ == saturation(*self),
            s@ == if achromatic(*self) {
                0real
            } else {
                100real
            },
    {
        self.saturation()
    }

    /// The relative luminance, as `relative_luminance` gives it.
    pub fn get_rel_lum(&self) -> (y: Ratio)
        ensures
            y@ == relative_luminance(*self),
            0real <= y@ <= 1real,
    {
        self.relative_luminance()
    }

    /// The colour of the first three bytes of a slice: red, green, blue.
    pub fn from_slice(value: &[u8]) -> (c: Color)
        requires
            value@.len() >= 3,
        ensures
            c == Color(value@[0], value@[1], value@[2]),
    {
        Color(value[0], value[1], value[2])
    }
}

} // verus!
