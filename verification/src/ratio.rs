//! Exact fractions of machine integers, and the facts about real division that
//! the colour metrics rest on.

use vstd::prelude::*;

verus! {

/// A fraction `numerator / denominator` with a positive denominator. Its view
/// is the real number that it denotes; two fractions with different parts may
/// denote the same number.
#[derive(Clone, Copy, Debug)]
pub struct Ratio {
    num: i64,
    den: i64,
}

impl Ratio {
    #[verifier::type_invariant]
    spec fn positive_denominator(self) -> bool {
        self.den > 0
    }

    /// The numerator, as a mathematical integer.
    pub closed spec fn numer(self) -> int {
        self.num as int
    }

    /// The denominator, as a mathematical integer.
    pub closed spec fn denom(self) -> int {
        self.den as int
    }

    /// The real number that the fraction denotes.
    pub open spec fn view(self) -> real {
        self.numer() as real / self.denom() as real
    }

    /// The fraction `num / den`, or `None` when `den` is not positive.
    pub fn new(num: i64, den: i64) -> (r: Option<Ratio>)
        ensures
            r.is_some() <==> den > 0,
            r matches Some(q) ==> q.numer() == num && q.denom() == den && q@ == num as real
                / den as real,
    {
        if den > 0 {
            Some(Ratio { num, den })
        } else {
            None
        }
    }

    /// The fraction `num / den` of a denominator known to be positive.
    pub(crate) fn from_parts(num: i64, den: i64) -> (r: Ratio)
        requires
            den > 0,
        ensures
            r.numer() == num,
            r.denom() == den,
            r@ == num as real / den as real,
    {
        Ratio { num, den }
    }

    /// The whole number `n` as a fraction over one.
    pub fn whole(n: i64) -> (r: Ratio)
        ensures
            r.numer() == n,
            r.denom() == 1,
            r@ == n as real,
    {
        proof {
            lemma_quotient(n as real, 1real, n as real);
        }
        Ratio { num: n, den: 1 }
    }

    /// The numerator.
    pub fn numerator(&self) -> (n: i64)
        ensures
            n == self.numer(),
    {
        self.num
    }

    /// The denominator, which is positive.
    pub fn denominator(&self) -> (d: i64)
        ensures
            d == self.denom(),
            d > 0,
    {
        proof {
            use_type_invariant(self);
        }
        self.den
    }

    /// Whether `self` denotes a number no larger than `other` does.
    pub fn le(&self, other: &Ratio) -> (b: bool)
        ensures
            b == (self@ <= other@),
    {
        proof {
            use_type_invariant(self);
            use_type_invariant(other);
            lemma_compare_fractions(
                self.num as int,
                self.den as int,
                other.num as int,
                other.den as int,
            );
            lemma_product_within(
                self.num as int,
                other.den as int,
                0x8000_0000_0000_0000,
                0x8000_0000_0000_0000,
            );
            lemma_product_within(
                other.num as int,
                self.den as int,
                0x8000_0000_0000_0000,
                0x8000_0000_0000_0000,
            );
        }
        let left: i128 = (self.num as i128) * (other.den as i128);
        let right: i128 = (other.num as i128) * (self.den as i128);
        left <= right
    }
}

/// A product of two bounded integers is bounded by the product of the bounds.
pub proof fn lemma_product_within(a: int, b: int, bound_a: int, bound_b: int)
    requires
        -bound_a <= a <= bound_a,
        -bound_b <= b <= bound_b,
    ensures
        -(bound_a * bound_b) <= a * b <= bound_a * bound_b,
{
    assert(-(bound_a * bound_b) <= a * b <= bound_a * bound_b) by (nonlinear_arith)
        requires
            -bound_a <= a <= bound_a,
            -bound_b <= b <= bound_b,
    ;
}

/// A quotient is the number whose product with the divisor is the dividend.
pub proof fn lemma_quotient(a: real, b: real, q: real)
    requires
        b != 0real,
        q * b == a,
    ensures
        a / b == q,
{
    assert(a / b == q) by (nonlinear_arith)
        requires
            b != 0real,
            q * b == a,
    ;
}

/// Dividing and then multiplying by the same non-zero number changes nothing.
pub proof fn lemma_quotient_times_divisor(a: real, b: real)
    requires
        b != 0real,
    ensures
        (a / b) * b == a,
{
    assert((a / b) * b == a) by (nonlinear_arith)
        requires
            b != 0real,
    ;
}

/// Fractions with positive denominators compare as their cross products do.
pub proof fn lemma_compare_fractions(a: int, b: int, c: int, d: int)
    requires
        b > 0,
        d > 0,
    ensures
        (a as real / b as real <= c as real / d as real) <==> a * d <= c * b,
        (a as real / b as real == c as real / d as real) <==> a * d == c * b,
{
    let x = a as real / b as real;
    let y = c as real / d as real;
    let br = b as real;
    let dr = d as real;
    lemma_quotient_times_divisor(a as real, br);
    lemma_quotient_times_divisor(c as real, dr);
    assert((x <= y) <==> (x * br) * dr <= (y * dr) * br) by (nonlinear_arith)
        requires
            br > 0real,
            dr > 0real,
    ;
    assert((x == y) <==> (x * br) * dr == (y * dr) * br) by (nonlinear_arith)
        requires
            br > 0real,
            dr > 0real,
    ;
    assert((a as real) * dr == (a * d) as real) by (nonlinear_arith)
        requires
            dr == d as real,
    ;
    assert((c as real) * br == (c * b) as real) by (nonlinear_arith)
        requires
            br == b as real,
    ;
}

} // verus!
