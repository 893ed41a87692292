//! Numbers as double-precision arithmetic holds them: 53 binary digits, each
//! result rounded to the nearest, a tie to the even one. A text that shows such
//! a number rounds it once more, and the first rounding decides the ties.

use vstd::prelude::*;
use vstd::arithmetic::power2::pow2;
use crate::numeral::{half_even, law_rounding_is_nearest, round_half_even};

verus! {

/// The least whole number of 53 binary digits.
pub const UNIT: u128 = 4_503_599_627_370_496;

/// The double-precision number nearest to `num / den`, as a numerator over a
/// power of two. It is scaled up until 53 binary digits stand before the point,
/// and the rest is rounded off.
pub open spec fn nearest_double(num: int, den: int) -> (int, int)
    decreases
            (if num < UNIT * den {
                UNIT * den - num
            } else {
                0
            }),
{
    if num <= 0 {
        (0, 1)
    } else if num >= UNIT * den {
        (half_even(num, den), 1)
    } else {
        let half = nearest_double(2 * num, den);
        (half.0, 2 * half.1)
    }
}

/// The double-precision number nearest to a fraction is off by at most one part
/// in 2 to the power of 53.
pub proof fn law_double_is_near(num: int, den: int)
    requires
        0 < num < 2 * (UNIT * den),
        0 < den,
    ensures
        ({
            let d = nearest_double(num, den);
            &&& UNIT <= d.0 <= 2 * UNIT
            &&& 0 < d.1
            &&& 0 < num * d.1 < 2 * (UNIT * den)
            &&& -(num * d.1) <= 2 * (UNIT * (d.0 * den - num * d.1)) <= num * d.1
        }),
    decreases
            (if num < UNIT * den {
                UNIT * den - num
            } else {
                0
            }),
{
    let d = nearest_double(num, den);
    if num >= UNIT * den {
        law_rounding_is_nearest(num, den);
        lemma_digits(num, den);
        let e = d.0 * den - num;
        assert(num * 1 == num);
        assert(2 * (UNIT * e) <= UNIT * den && -(UNIT * den) <= 2 * (UNIT * e))
            by (nonlinear_arith)
            requires
                -den <= 2 * e <= den,
        ;
    } else {
        law_double_is_near(2 * num, den);
        let p = nearest_double(2 * num, den).1;
        assert((2 * num) * p == num * (2 * p)) by (nonlinear_arith);
    }
}

/// A number of 53 binary digits before the point is rounded to one.
proof fn lemma_digits(num: int, den: int)
    requires
        UNIT * den <= num < 2 * (UNIT * den),
        0 < den,
    ensures
        UNIT <= half_even(num, den) <= 2 * UNIT,
{
    let q = num / den;
    vstd::arithmetic::div_mod::lemma_fundamental_div_mod(num, den);
    assert(UNIT <= q < 2 * UNIT) by (nonlinear_arith)
        requires
            num == den * q + num % den,
            0 <= num % den < den,
            UNIT * den <= num < 2 * (UNIT * den),
            0 < den,
    ;
}

/// The double-precision number nearest to `num / den`.
pub fn to_double(num: u128, den: u128) -> (r: (u128, u128))
    requires
        0 < den <= 0x1_0000_0000_0000_0000,
        num < 2 * (UNIT * den),
    ensures
        (r.0 as int, r.1 as int) == nearest_double(num as int, den as int),
        r.0 <= 2 * UNIT,
        0 < r.1 <= 2 * (UNIT * den),
        0 < num ==> UNIT <= r.0 && num * r.1 < 2 * (UNIT * den),
{
    if num == 0 {
        return (0, 1);
    }
    let mut a: u128 = num;
    let mut p: u128 = 1;
    while a < UNIT * den
        invariant
            0 < den <= 0x1_0000_0000_0000_0000,
            0 < num,
            0 < p <= a,
            a < 2 * (UNIT * den),
            a == num * p,
            nearest_double(num as int, den as int) == (
                nearest_double(a as int, den as int).0,
                p * nearest_double(a as int, den as int).1,
            ),
        decreases 2 * (UNIT * den) - a,
    {
        assert(2 * a == num * (2 * p)) by (nonlinear_arith)
            requires
                a == num * p,
        ;
        let ghost next = nearest_double(2 * a, den as int).1;
        assert(p * (2 * next) == (2 * p) * next) by (nonlinear_arith);
        a = 2 * a;
        p = 2 * p;
    }
    proof {
        lemma_digits(a as int, den as int);
        assert(p * 1 == p);
    }
    (round_half_even(a, den), p)
}

/// A share in percent, whole: the share is rounded to a double-precision number,
/// its hundredfold is rounded to one, and that is rounded to a whole number.
/// Dividing by 1024 in between moves the point only.
pub open spec fn percent(part: int, all: int) -> int {
    let share = nearest_double(part, all);
    let hundredfold = nearest_double(100 * share.0, 1024);
    half_even(1024 * hundredfold.0, hundredfold.1 * share.1)
}

/// A share in percent, whole.
pub fn whole_percent(part: u32, all: u32) -> (r: u64)
    requires
        0 < all,
    ensures
        r == percent(part as int, all as int),
{
    assert(UNIT <= UNIT * all) by (nonlinear_arith)
        requires
            0 < all,
    ;
    let share = to_double(part as u128, all as u128);
    let hundredfold = to_double(100 * share.0, 1024);
    proof {
        let (m, p, q) = (share.0 as int, share.1 as int, hundredfold.1 as int);
        if part > 0 {
            assert(q <= 20) by (nonlinear_arith)
                requires
                    (100 * m) * q < 2 * (UNIT * 1024),
                    UNIT <= m,
                    0 < q,
            ;
        }
        assert(0 < q * p <= 20 * (2 * (UNIT * 0xffff_ffff))) by (nonlinear_arith)
            requires
                0 < q <= 20,
                0 < p <= 2 * (UNIT * all),
                all <= 0xffff_ffff,
        ;
        crate::numeral::lemma_rounds_below(1024 * hundredfold.0 as int, q * p);
    }
    round_half_even(1024 * hundredfold.0, hundredfold.1 * share.1) as u64
}

/// Scaled by its power of two, the fraction is rounded to the nearest whole
/// number, a tie to the even one. Nothing is left of 0.
pub proof fn law_double_is_the_nearest_of_its_digits(num: int, den: int)
    requires
        0 <= num < 2 * (UNIT * den),
        0 < den,
    ensures
        ({
            let d = nearest_double(num, den);
            &&& num == 0 ==> d.0 == 0 && d.1 == 1
            &&& exists|k: nat| d.1 == #[trigger] pow2(k)
            &&& -den <= 2 * (d.0 * den - num * d.1) <= den
            &&& 2 * (d.0 * den - num * d.1) == den || 2 * (d.0 * den - num * d.1) == -den ==> d.0
                % 2 == 0
        }),
    decreases
            (if num < UNIT * den {
                UNIT * den - num
            } else {
                0
            }),
{
    let d = nearest_double(num, den);
    vstd::arithmetic::power2::lemma2_to64();
    if num == 0 {
        assert(d.1 == pow2(0));
    } else if num >= UNIT * den {
        law_rounding_is_nearest(num, den);
        let q = num / den;
        let r = num % den;
        vstd::arithmetic::div_mod::lemma_fundamental_div_mod(num, den);
        assert(q * den == den * q && (q + 1) * den == den * q + den) by (nonlinear_arith);
        assert(num * 1 == num);
        assert(d.1 == pow2(0));
    } else {
        law_double_is_the_nearest_of_its_digits(2 * num, den);
        let half = nearest_double(2 * num, den);
        let k = choose|k: nat| half.1 == #[trigger] pow2(k);
        vstd::arithmetic::power2::lemma_pow2_unfold(k + 1);
        assert(d.1 == pow2(k + 1));
        assert((2 * num) * half.1 == num * (2 * half.1)) by (nonlinear_arith);
    }
}

/// The error of a percentage: that of the last rounding, and of the two before.
proof fn lemma_percent_is_nearest(part: int, all: int)
    requires
        0 < part < 2 * (UNIT * all),
        0 < all,
    ensures
        ({
            let off = percent(part, all) * all - 100 * part;
            let limit = 2 * (UNIT * all) + 600 * part;
            -limit <= 4 * (UNIT * off) <= limit
        }),
{
    let (m, p) = nearest_double(part, all);
    law_double_is_near(part, all);
    assert(0 < 100 * m < 2 * (UNIT * 1024));
    law_double_is_near(100 * m, 1024);
    let (h, q) = nearest_double(100 * m, 1024);
    let r = percent(part, all);
    let w = q * p;
    assert(0 < w) by (nonlinear_arith)
        requires
            0 < q,
            0 < p,
            w == q * p,
    ;
    law_rounding_is_nearest(1024 * h, w);
    let x = r * w - 1024 * h;
    let y = h * 1024 - (100 * m) * q;
    let z = m * all - part * p;
    let off = r * all - 100 * part;
    let unit = UNIT as int;
    assert(off * w == all * x + all * y + 100 * (q * z)) by (nonlinear_arith)
        requires
            w == q * p,
            x == r * w - 1024 * h,
            y == h * 1024 - (100 * m) * q,
            z == m * all - part * p,
            off == r * all - 100 * part,
    ;
    // Each of the three roundings adds its share to the error.
    let pw = part * w;
    let aw = all * w;
    assert(-aw <= 2 * (all * x) <= aw) by (nonlinear_arith)
        requires
            -w <= 2 * x <= w,
            0 < all,
            aw == all * w,
    ;
    assert(-pw <= 2 * (unit * (q * z)) <= pw) by (nonlinear_arith)
        requires
            -(part * p) <= 2 * (unit * z) <= part * p,
            0 < q,
            w == q * p,
            pw == part * w,
    {
        assert((part * p) * q == part * (q * p));
        assert((2 * (unit * z)) * q == 2 * (unit * (q * z)));
        assert(-((part * p) * q) <= (2 * (unit * z)) * q <= (part * p) * q);
    }
    let mq = all * (m * q);
    assert(mq == q * z + pw) by (nonlinear_arith)
        requires
            mq == all * (m * q),
            z == m * all - part * p,
            w == q * p,
            pw == part * w,
    ;
    assert(-(100 * mq) <= 2 * (unit * (all * y)) <= 100 * mq) by (nonlinear_arith)
        requires
            -((100 * m) * q) <= 2 * (unit * y) <= (100 * m) * q,
            0 < all,
            mq == all * (m * q),
    {
        assert(((100 * m) * q) * all == 100 * mq);
        assert((2 * (unit * y)) * all == 2 * (unit * (all * y)));
        assert(-(((100 * m) * q) * all) <= (2 * (unit * y)) * all <= ((100 * m) * q) * all);
    }
    assert(0 <= pw) by (nonlinear_arith)
        requires
            pw == part * w,
            0 < part,
            0 < w,
    ;
    assert(q * z <= pw && -pw <= q * z) by (nonlinear_arith)
        requires
            -pw <= 2 * (unit * (q * z)) <= pw,
            1 <= unit,
            0 <= pw,
    ;
    let limit = 2 * (unit * all) + 600 * part;
    assert(unit * (off * w) == unit * (all * x) + unit * (all * y) + 100 * (unit * (q * z)))
        by (nonlinear_arith)
        requires
            off * w == all * x + all * y + 100 * (q * z),
    ;
    assert(-(unit * aw) <= 2 * (unit * (all * x)) <= unit * aw) by (nonlinear_arith)
        requires
            -aw <= 2 * (all * x) <= aw,
            1 <= unit,
    ;
    assert(-(2 * (unit * aw) + 600 * pw) <= 4 * (unit * (off * w)) <= 2 * (unit * aw) + 600 * pw);
    assert(2 * (unit * aw) + 600 * pw == limit * w) by (nonlinear_arith)
        requires
            limit == 2 * (unit * all) + 600 * part,
            aw == all * w,
            pw == part * w,
    ;
    assert(-limit <= 4 * (unit * off) <= limit) by (nonlinear_arith)
        requires
            -(limit * w) <= 4 * (unit * (off * w)) <= limit * w,
            0 < w,
    {
        assert(4 * (unit * (off * w)) == (4 * (unit * off)) * w);
    }
}

/// A percentage is the whole number nearest to the share, but where the share
/// is so close to a tie that double-precision numbers do not tell them apart.
pub proof fn law_percent_is_nearest(part: int, all: int)
    requires
        0 <= part < 2 * (UNIT * all),
        0 < all,
    ensures
        part == 0 ==> percent(part, all) == 0,
        ({
            let off = percent(part, all) * all - 100 * part;
            let limit = 2 * (UNIT * all) + 600 * part;
            -limit <= 4 * (UNIT * off) <= limit
        }),
{
    if part > 0 {
        lemma_percent_is_nearest(part, all);
    } else {
        assert(nearest_double(part, all) == (0int, 1int));
        assert(nearest_double(100 * 0int, 1024) == (0int, 1int));
        assert(percent(part, all) == half_even(1024 * 0int, 1int * 1int));
        assert(percent(part, all) * all == 0) by (nonlinear_arith)
            requires
                percent(part, all) == 0,
        ;
    }
}

} // verus!
