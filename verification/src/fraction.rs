//! Exact non-negative fractions, and their order.

use vstd::prelude::*;

verus! {

/// The number `num / den`. Two fractions of one value may be written
/// differently: `==` compares the parts, `less` and `same` the values.
#[derive(Clone, Copy, Debug, PartialEq, Eq, Structural)]
pub struct Fraction {
    pub num: u128,
    pub den: u128,
}

impl Fraction {
    /// A fraction has a denominator.
    pub open spec fn wf(self) -> bool {
        self.den > 0
    }

    /// Whether this is the smaller number.
    pub open spec fn less(self, other: Fraction) -> bool {
        self.num * other.den < other.num * self.den
    }

    /// Whether both are one number.
    pub open spec fn same(self, other: Fraction) -> bool {
        self.num * other.den == other.num * self.den
    }

    /// Whether this is no larger.
    pub open spec fn at_most(self, other: Fraction) -> bool {
        !other.less(self)
    }
}

/// A smaller whole part makes the smaller fraction.
proof fn lemma_whole_part(a: int, b: int, c: int, d: int, q: int, p: int, r: int, s: int)
    by (nonlinear_arith)
    requires
        b > 0,
        d > 0,
        a == q * b + r,
        c == p * d + s,
        0 <= r < b,
        0 <= s < d,
        q < p,
    ensures
        a * d < c * b,
{
    assert(a < (q + 1) * b);
    assert(a * d < (q + 1) * b * d);
    assert((q + 1) * b * d <= p * b * d);
    assert(p * d * b <= c * b);
    assert(p * b * d == p * d * b);
}

/// With one whole part, the remainders decide, turned over.
proof fn lemma_same_whole_part(a: int, b: int, c: int, d: int, q: int, r: int, s: int)
    by (nonlinear_arith)
    requires
        a == q * b + r,
        c == q * d + s,
    ensures
        (a * d < c * b) == (d * r < b * s),
{
    assert(a * d == q * b * d + r * d);
    assert(c * b == q * d * b + s * b);
    assert(q * b * d == q * d * b);
}

/// Whether `a` is the smaller number. Whole parts are compared first, then the
/// remainders the other way up, so that no product is ever formed.
pub fn is_less(a: Fraction, b: Fraction) -> (r: bool)
    requires
        a.wf(),
        b.wf(),
    ensures
        r == a.less(b),
    decreases a.den + b.den,
{
    let q: u128 = a.num / a.den;
    let p: u128 = b.num / b.den;
    let x: u128 = a.num % a.den;
    let y: u128 = b.num % b.den;
    proof {
        vstd::arithmetic::div_mod::lemma_fundamental_div_mod(a.num as int, a.den as int);
        vstd::arithmetic::div_mod::lemma_fundamental_div_mod(b.num as int, b.den as int);
        vstd::arithmetic::mul::lemma_mul_is_commutative(a.den as int, q as int);
        vstd::arithmetic::mul::lemma_mul_is_commutative(b.den as int, p as int);
        let (n1, d1, n2, d2) = (a.num as int, a.den as int, b.num as int, b.den as int);
        if q < p {
            lemma_whole_part(n1, d1, n2, d2, q as int, p as int, x as int, y as int);
        } else if p < q {
            lemma_whole_part(n2, d2, n1, d1, p as int, q as int, y as int, x as int);
        } else {
            lemma_same_whole_part(n1, d1, n2, d2, q as int, x as int, y as int);
            assert(d2 * 0 == 0 && d1 * 0 == 0) by (nonlinear_arith);
            if x == 0 {
                assert((0 < d1 * y) == (y > 0)) by (nonlinear_arith)
                    requires
                        d1 > 0,
                        y >= 0,
                ;
            } else if y == 0 {
                assert(d2 * x >= 0) by (nonlinear_arith)
                    requires
                        d2 > 0,
                        x >= 0,
                ;
            }
        }
    }
    if q != p {
        q < p
    } else if x == 0 {
        y > 0
    } else if y == 0 {
        false
    } else {
        is_less(Fraction { num: b.den, den: y }, Fraction { num: a.den, den: x })
    }
}

/// No number is less than itself, and of two different ones one is less.
pub proof fn law_less_is_an_order(a: Fraction, b: Fraction, c: Fraction)
    requires
        a.wf(),
        b.wf(),
        c.wf(),
    ensures
        !a.less(a),
        a.less(b) || a.same(b) || b.less(a),
        !(a.less(b) && b.less(a)),
        a.less(b) && b.less(c) ==> a.less(c),
        a.at_most(b) && b.at_most(c) ==> a.at_most(c),
{
    let (n1, d1, n2, d2, n3, d3) = (
        a.num as int,
        a.den as int,
        b.num as int,
        b.den as int,
        c.num as int,
        c.den as int,
    );
    if a.less(b) && b.less(c) {
        assert(n1 * d3 < n3 * d1) by (nonlinear_arith)
            requires
                n1 * d2 < n2 * d1,
                n2 * d3 < n3 * d2,
                d1 > 0,
                d2 > 0,
                d3 > 0,
                n1 >= 0,
                n2 >= 0,
                n3 >= 0,
        {
            assert(n1 * d2 * d3 < n2 * d1 * d3);
            assert(n2 * d3 * d1 < n3 * d2 * d1);
            assert((n1 * d3) * d2 < (n3 * d1) * d2);
        }
    }
    if a.at_most(b) && b.at_most(c) {
        assert(n1 * d3 <= n3 * d1) by (nonlinear_arith)
            requires
                n1 * d2 <= n2 * d1,
                n2 * d3 <= n3 * d2,
                d1 > 0,
                d2 > 0,
                d3 > 0,
                n1 >= 0,
                n2 >= 0,
                n3 >= 0,
        {
            assert(n1 * d2 * d3 <= n2 * d1 * d3);
            assert(n2 * d3 * d1 <= n3 * d2 * d1);
            assert((n1 * d3) * d2 <= (n3 * d1) * d2);
        }
    }
}

/// One fraction is less than another exactly when it is so over the common
/// denominator.
pub proof fn law_less_goes_by_the_common_denominator(a: Fraction, b: Fraction)
    ensures
        a.less(b) <==> a.num * b.den < b.num * a.den,
        a.at_most(b) <==> a.num * b.den <= b.num * a.den,
        a.same(b) <==> a.num * b.den == b.num * a.den,
        a.wf() <==> a.den > 0,
{
}

} // verus!
