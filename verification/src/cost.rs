//! Exact lengths of paths made of unit steps and of diagonal steps of length
//! √2, and their order, decided over the integers.

use vstd::prelude::*;

verus! {

/// Whether `d + e·√2 >= 0`.
///
/// With both signs equal the answer is plain; with mixed signs the two
/// squares `d²` and `2e²` are compared.
pub open spec fn root2_nonneg(d: int, e: int) -> bool {
    if d >= 0 && e >= 0 {
        true
    } else if d <= 0 && e <= 0 {
        false
    } else if d > 0 {
        d * d >= 2 * (e * e)
    } else {
        2 * (e * e) >= d * d
    }
}

proof fn lemma_square_strict(x: int, y: int)
    requires
        0 <= x < y,
    ensures
        x * x < y * y,
{
    assert(x * x <= x * y) by (nonlinear_arith)
        requires
            0 <= x < y,
    ;
    assert(x * y < y * y) by (nonlinear_arith)
        requires
            0 <= x < y,
    ;
}

/// From `a² >= 2b²` and `c² >= 2d²` over the naturals: `ac >= 2bd`.
proof fn lemma_cross_ge(a: int, b: int, c: int, d: int)
    requires
        a >= 0,
        b >= 0,
        c >= 0,
        d >= 0,
        a * a >= 2 * (b * b),
        c * c >= 2 * (d * d),
    ensures
        a * c >= 2 * (b * d),
{
    if a * c < 2 * (b * d) {
        assert(0 <= a * c) by (nonlinear_arith)
            requires
                a >= 0,
                c >= 0,
        ;
        lemma_square_strict(a * c, 2 * (b * d));
        assert((a * c) * (a * c) == (a * a) * (c * c)) by (nonlinear_arith);
        assert((2 * (b * d)) * (2 * (b * d)) == (2 * (b * b)) * (2 * (d * d))) by (nonlinear_arith);
        assert((a * a) * (c * c) >= (2 * (b * b)) * (c * c)) by (nonlinear_arith)
            requires
                a * a >= 2 * (b * b),
                c * c >= 0,
        ;
        assert((2 * (b * b)) * (c * c) >= (2 * (b * b)) * (2 * (d * d))) by (nonlinear_arith)
            requires
                c * c >= 2 * (d * d),
                2 * (b * b) >= 0,
        ;
    }
}

/// From `a² <= 2b²` and `c² <= 2d²` over the naturals: `ac <= 2bd`.
proof fn lemma_cross_le(a: int, b: int, c: int, d: int)
    requires
        a >= 0,
        b >= 0,
        c >= 0,
        d >= 0,
        a * a <= 2 * (b * b),
        c * c <= 2 * (d * d),
    ensures
        a * c <= 2 * (b * d),
{
    if a * c > 2 * (b * d) {
        assert(0 <= 2 * (b * d)) by (nonlinear_arith)
            requires
                b >= 0,
                d >= 0,
        ;
        lemma_square_strict(2 * (b * d), a * c);
        assert((a * c) * (a * c) == (a * a) * (c * c)) by (nonlinear_arith);
        assert((2 * (b * d)) * (2 * (b * d)) == (2 * (b * b)) * (2 * (d * d))) by (nonlinear_arith);
        assert((a * a) * (c * c) <= (2 * (b * b)) * (c * c)) by (nonlinear_arith)
            requires
                a * a <= 2 * (b * b),
                c * c >= 0,
        ;
        assert((2 * (b * b)) * (c * c) <= (2 * (b * b)) * (2 * (d * d))) by (nonlinear_arith)
            requires
                c * c <= 2 * (d * d),
                2 * (b * b) >= 0,
        ;
    }
}

/// `(a + c)² >= 2(b + d)²` from the same of each summand, strictly if the
/// first holds strictly.
proof fn lemma_sum_ge(a: int, b: int, c: int, d: int)
    requires
        a >= 0,
        b >= 0,
        c >= 0,
        d >= 0,
        a * a >= 2 * (b * b),
        c * c >= 2 * (d * d),
    ensures
        (a + c) * (a + c) >= 2 * ((b + d) * (b + d)),
        a * a > 2 * (b * b) ==> (a + c) * (a + c) > 2 * ((b + d) * (b + d)),
{
    lemma_cross_ge(a, b, c, d);
    assert((a + c) * (a + c) == a * a + 2 * (a * c) + c * c) by (nonlinear_arith);
    assert(2 * ((b + d) * (b + d)) == 2 * (b * b) + 2 * (2 * (b * d)) + 2 * (d * d)) by (nonlinear_arith);
}

/// `(a + c)² <= 2(b + d)²` from the same of each summand, strictly if the
/// first holds strictly.
proof fn lemma_sum_le(a: int, b: int, c: int, d: int)
    requires
        a >= 0,
        b >= 0,
        c >= 0,
        d >= 0,
        a * a <= 2 * (b * b),
        c * c <= 2 * (d * d),
    ensures
        (a + c) * (a + c) <= 2 * ((b + d) * (b + d)),
        a * a < 2 * (b * b) ==> (a + c) * (a + c) < 2 * ((b + d) * (b + d)),
{
    lemma_cross_le(a, b, c, d);
    assert((a + c) * (a + c) == a * a + 2 * (a * c) + c * c) by (nonlinear_arith);
    assert(2 * ((b + d) * (b + d)) == 2 * (b * b) + 2 * (2 * (b * d)) + 2 * (d * d)) by (nonlinear_arith);
}

proof fn lemma_square_mono(x: int, y: int)
    requires
        0 <= x <= y,
    ensures
        x * x <= y * y,
{
    if x < y {
        lemma_square_strict(x, y);
    }
}

/// √2 is irrational: no square of a natural is twice another, but for zero.
pub proof fn lemma_root2_irrational(d: int, e: int)
    requires
        d >= 0,
        e >= 0,
        d * d == 2 * (e * e),
    ensures
        d == 0,
        e == 0,
    decreases d,
{
    if d == 0 {
        assert(e == 0) by (nonlinear_arith)
            requires
                2 * (e * e) == 0,
        ;
    } else {
        let k = d / 2;
        if d % 2 == 1 {
            assert(d == 2 * k + 1);
            assert(d * d == 2 * (2 * (k * k) + 2 * k) + 1) by (nonlinear_arith)
                requires
                    d == 2 * k + 1,
            ;
            assert(false);
        }
        assert(d == 2 * k);
        assert(d * d == 4 * (k * k)) by (nonlinear_arith)
            requires
                d == 2 * k,
        ;
        assert(e * e == 2 * (k * k)) by (nonlinear_arith)
            requires
                4 * (k * k) == 2 * (e * e),
        ;
        let m = e / 2;
        if e % 2 == 1 {
            assert(e == 2 * m + 1);
            assert(e * e == 2 * (2 * (m * m) + 2 * m) + 1) by (nonlinear_arith)
                requires
                    e == 2 * m + 1,
            ;
            assert(false);
        }
        assert(e == 2 * m);
        assert(e * e == 4 * (m * m)) by (nonlinear_arith)
            requires
                e == 2 * m,
        ;
        assert(k * k == 2 * (m * m)) by (nonlinear_arith)
            requires
                4 * (m * m) == 2 * (k * k),
        ;
        lemma_root2_irrational(k, m);
    }
}

/// The sum of two numbers that are not negative is not negative.
pub proof fn lemma_nonneg_add(d1: int, e1: int, d2: int, e2: int)
    requires
        root2_nonneg(d1, e1),
        root2_nonneg(d2, e2),
    ensures
        root2_nonneg(d1 + d2, e1 + e2),
{
    let d = d1 + d2;
    let e = e1 + e2;
    if d >= 0 && e >= 0 {
    } else if d <= 0 && e <= 0 {
        // The two summands then cancel, which leaves both at zero.
        if d1 > 0 {
            // The first is `+ -`, so the second is `- +`.
            lemma_square_mono(e2, -e1);
            lemma_square_mono(d1, -d2);
            assert((-d2) * (-d2) == d2 * d2) by (nonlinear_arith);
            assert((-e1) * (-e1) == e1 * e1) by (nonlinear_arith);
            assert(d1 * d1 == 2 * (e1 * e1));
            lemma_root2_irrational(d1, -e1);
        } else if d2 > 0 {
            lemma_square_mono(e1, -e2);
            lemma_square_mono(d2, -d1);
            assert((-d1) * (-d1) == d1 * d1) by (nonlinear_arith);
            assert((-e2) * (-e2) == e2 * e2) by (nonlinear_arith);
            assert(d2 * d2 == 2 * (e2 * e2));
            lemma_root2_irrational(d2, -e2);
        }
    } else if d > 0 {
        // Needed: d² >= 2e², with e < 0.
        lemma_nonneg_add_mixed(d1, -e1, d2, -e2);
        assert((-e) * (-e) == e * e) by (nonlinear_arith);
    } else {
        // Needed: 2e² >= d², with d < 0 < e.
        lemma_nonneg_add_mixed_rev(-d1, e1, -d2, e2);
        assert((-d) * (-d) == d * d) by (nonlinear_arith);
    }
}

/// With `a - b√2 >= 0`, `c - d√2 >= 0`, and a sum `(a + c) - (b + d)√2` of a
/// positive and a negative part: the square of the first part is at least
/// twice that of the second.
proof fn lemma_nonneg_add_mixed(a: int, b: int, c: int, d: int)
    requires
        root2_nonneg(a, -b),
        root2_nonneg(c, -d),
        a + c > 0,
        b + d > 0,
    ensures
        (a + c) * (a + c) >= 2 * ((b + d) * (b + d)),
{
    assert((-b) * (-b) == b * b) by (nonlinear_arith);
    assert((-d) * (-d) == d * d) by (nonlinear_arith);
    if b <= 0 && a >= 0 {
        // The first summand adds to the positive part only.
        assert(d > 0 && c > 0);
        lemma_square_mono(c, a + c);
        lemma_square_mono(b + d, d);
    } else if d <= 0 && c >= 0 {
        assert(b > 0 && a > 0);
        lemma_square_mono(a, a + c);
        lemma_square_mono(b + d, b);
    } else if a > 0 && b > 0 && c > 0 && d > 0 {
        lemma_sum_ge(a, b, c, d);
    } else if a > 0 && b > 0 {
        // The second summand is `- +`: c < 0, d < 0 here, with 2d² >= c².
        assert(c < 0 && d < 0);
        if (a + c) * (a + c) < 2 * ((b + d) * (b + d)) {
            assert((-c) * (-c) == c * c) by (nonlinear_arith);
            lemma_sum_le(a + c, b + d, -c, -d);
        }
    } else {
        assert(c > 0 && d > 0 && a < 0 && b < 0);
        if (a + c) * (a + c) < 2 * ((b + d) * (b + d)) {
            assert((-a) * (-a) == a * a) by (nonlinear_arith);
            lemma_sum_le(a + c, b + d, -a, -b);
        }
    }
}

/// The mirror image: with `b√2 - a >= 0`, `d√2 - c >= 0` and a sum of a
/// negative and a positive part.
proof fn lemma_nonneg_add_mixed_rev(a: int, b: int, c: int, d: int)
    requires
        root2_nonneg(-a, b),
        root2_nonneg(-c, d),
        a + c > 0,
        b + d > 0,
    ensures
        2 * ((b + d) * (b + d)) >= (a + c) * (a + c),
{
    assert((-a) * (-a) == a * a) by (nonlinear_arith);
    assert((-c) * (-c) == c * c) by (nonlinear_arith);
    if a <= 0 && b >= 0 {
        assert(c > 0 && d > 0);
        lemma_square_mono(d, b + d);
        lemma_square_mono(a + c, c);
    } else if c <= 0 && d >= 0 {
        assert(a > 0 && b > 0);
        lemma_square_mono(b, b + d);
        lemma_square_mono(a + c, a);
    } else if a > 0 && b > 0 && c > 0 && d > 0 {
        lemma_sum_le(a, b, c, d);
    } else if a > 0 && b > 0 {
        assert(c < 0 && d < 0);
        if 2 * ((b + d) * (b + d)) < (a + c) * (a + c) {
            assert((-d) * (-d) == d * d) by (nonlinear_arith);
            lemma_sum_ge(a + c, b + d, -c, -d);
        }
    } else {
        assert(c > 0 && d > 0 && a < 0 && b < 0);
        if 2 * ((b + d) * (b + d)) < (a + c) * (a + c) {
            assert((-b) * (-b) == b * b) by (nonlinear_arith);
            lemma_sum_ge(a + c, b + d, -a, -b);
        }
    }
}

/// Of a number and its negative, one is not negative.
pub proof fn lemma_nonneg_total(d: int, e: int)
    ensures
        root2_nonneg(d, e) || root2_nonneg(-d, -e),
{
    assert((-d) * (-d) == d * d) by (nonlinear_arith);
    assert((-e) * (-e) == e * e) by (nonlinear_arith);
}

/// A number and its negative are both not negative only at zero.
pub proof fn lemma_nonneg_antisymmetric(d: int, e: int)
    requires
        root2_nonneg(d, e),
        root2_nonneg(-d, -e),
    ensures
        d == 0,
        e == 0,
{
    assert((-d) * (-d) == d * d) by (nonlinear_arith);
    assert((-e) * (-e) == e * e) by (nonlinear_arith);
    if d > 0 && e < 0 {
        lemma_root2_irrational(d, -e);
    } else if d < 0 && e > 0 {
        lemma_root2_irrational(-d, e);
    }
}

/// A length `straight + diagonal·√2`, as contracts speak of it.
pub struct Length {
    pub straight: int,
    pub diagonal: int,
}

impl Length {
    pub open spec fn zero() -> Length {
        Length { straight: 0, diagonal: 0 }
    }

    /// The length of one step: 1 along a row or a column, √2 across.
    pub open spec fn step(across: bool) -> Length {
        if across {
            Length { straight: 0, diagonal: 1 }
        } else {
            Length { straight: 1, diagonal: 0 }
        }
    }

    pub open spec fn plus(self, other: Length) -> Length {
        Length {
            straight: self.straight + other.straight,
            diagonal: self.diagonal + other.diagonal,
        }
    }

    /// `self <= other` as real numbers.
    pub open spec fn le(self, other: Length) -> bool {
        root2_nonneg(other.straight - self.straight, other.diagonal - self.diagonal)
    }

    /// `self < other` as real numbers.
    pub open spec fn lt(self, other: Length) -> bool {
        self.le(other) && self != other
    }

    /// The number of steps of a path of this length.
    pub open spec fn steps(self) -> int {
        self.straight + self.diagonal
    }

    /// The order of lengths is transitive.
    pub proof fn lemma_le_transitive(a: Length, b: Length, c: Length)
        requires
            a.le(b),
            b.le(c),
        ensures
            a.le(c),
    {
        lemma_nonneg_add(
            b.straight - a.straight,
            b.diagonal - a.diagonal,
            c.straight - b.straight,
            c.diagonal - b.diagonal,
        );
    }

    /// Any two lengths are comparable.
    pub proof fn lemma_le_total(a: Length, b: Length)
        ensures
            a.le(b) || b.le(a),
    {
        lemma_nonneg_total(b.straight - a.straight, b.diagonal - a.diagonal);
    }

    /// Two lengths that are each at most the other are one length.
    pub proof fn lemma_le_antisymmetric(a: Length, b: Length)
        requires
            a.le(b),
            b.le(a),
        ensures
            a == b,
    {
        lemma_nonneg_antisymmetric(b.straight - a.straight, b.diagonal - a.diagonal);
    }
}

/// The length of a path: `straight` steps of length 1 and `diagonal` steps of
/// length √2.
#[derive(Debug, Clone, Copy, PartialEq, Eq, Hash, Structural)]
pub struct PathCost {
    pub straight: usize,
    pub diagonal: usize,
}

impl View for PathCost {
    type V = Length;

    open spec fn view(&self) -> Length {
        Length { straight: self.straight as int, diagonal: self.diagonal as int }
    }
}

impl PathCost {
    pub open spec fn spec_le(self, other: PathCost) -> bool {
        self@.le(other@)
    }

    pub open spec fn spec_lt(self, other: PathCost) -> bool {
        self@.lt(other@)
    }

    /// The length of the path without a step.
    pub fn zero() -> (c: PathCost)
        ensures
            c@ == Length::zero(),
    {
        PathCost { straight: 0, diagonal: 0 }
    }

    /// Whether `self <= other` as lengths.
    #[verifier::when_used_as_spec(spec_le)]
    pub fn le(self, other: PathCost) -> (b: bool)
        ensures
            b == self@.le(other@),
    {
        if self.straight <= other.straight && self.diagonal <= other.diagonal {
            true
        } else if self.straight >= other.straight && self.diagonal >= other.diagonal {
            false
        } else if self.straight < other.straight {
            let d: u128 = (other.straight - self.straight) as u128;
            let e: u128 = (self.diagonal - other.diagonal) as u128;
            proof {
                lemma_square_fits(d as int);
                lemma_square_fits(e as int);
                let ei = other.diagonal - self.diagonal;
                assert(ei * ei == e * e) by (nonlinear_arith)
                    requires
                        ei == -e,
                ;
            }
            (d * d) / 2 >= e * e
        } else {
            let d: u128 = (self.straight - other.straight) as u128;
            let e: u128 = (other.diagonal - self.diagonal) as u128;
            proof {
                lemma_square_fits(d as int);
                lemma_square_fits(e as int);
                let di = other.straight - self.straight;
                assert(di * di == d * d) by (nonlinear_arith)
                    requires
                        di == -d,
                ;
            }
            e * e >= (d * d) / 2 + (d * d) % 2
        }
    }

    /// Whether `self < other` as lengths.
    #[verifier::when_used_as_spec(spec_lt)]
    pub fn lt(self, other: PathCost) -> (b: bool)
        ensures
            b == self@.lt(other@),
    {
        self.le(other) && !(self.straight == other.straight && self.diagonal == other.diagonal)
    }
}

proof fn lemma_square_fits(d: int)
    requires
        0 <= d <= usize::MAX,
    ensures
        0 <= d * d <= 0xFFFF_FFFF_FFFF_FFFE_0000_0000_0000_0001,
{
    assert(0 <= d * d <= 0xFFFF_FFFF_FFFF_FFFF * 0xFFFF_FFFF_FFFF_FFFF) by (nonlinear_arith)
        requires
            0 <= d <= 0xFFFF_FFFF_FFFF_FFFF,
    ;
}

} // verus!
