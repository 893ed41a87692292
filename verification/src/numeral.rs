//! Decimal numerals, and rounding.

use vstd::prelude::*;

verus! {

/// The character for a digit.
pub open spec fn digit(d: int) -> char {
    (48 + d) as char
}

/// The decimal numeral of `n`, without leading zeros.
pub open spec fn dec(n: nat) -> Seq<char>
    decreases n,
{
    if n < 10 {
        seq![digit(n as int)]
    } else {
        dec(n / 10).push(digit((n % 10) as int))
    }
}

/// The numerals of up to three digits.
pub proof fn lemma_dec_small(n: nat)
    requires
        n < 1000,
    ensures
        n < 10 ==> dec(n) == seq![digit(n as int)],
        10 <= n < 100 ==> dec(n) == seq![digit((n / 10) as int), digit((n % 10) as int)],
        100 <= n ==> dec(n) == seq![
            digit((n / 100) as int),
            digit((n / 10 % 10) as int),
            digit((n % 10) as int),
        ],
{
    reveal_with_fuel(dec, 3);
    if 10 <= n < 100 {
        assert(dec(n) =~= seq![digit((n / 10) as int), digit((n % 10) as int)]);
    } else if 100 <= n {
        assert(n / 10 / 10 == n / 100);
        assert(dec(n) =~= seq![
            digit((n / 100) as int),
            digit((n / 10 % 10) as int),
            digit((n % 10) as int),
        ]);
    }
}

fn digit_char(d: u8) -> (r: char)
    requires
        d < 10,
    ensures
        r == digit(d as int),
{
    (48 + d) as char
}

/// Write the numeral of `n` behind `s`.
fn push_dec(s: &mut String, n: u64)
    ensures
        final(s)@ == old(s)@ + dec(n as nat),
    decreases n,
{
    if n < 10 {
        s.push(digit_char(n as u8));
    } else {
        push_dec(s, n / 10);
        s.push(digit_char((n % 10) as u8));
    }
    assert(s@ =~= old(s)@ + dec(n as nat));
}

/// The decimal numeral of `n`.
pub fn decimal(n: u64) -> (r: String)
    ensures
        r@ == dec(n as nat),
{
    let mut r = String::new();
    push_dec(&mut r, n);
    assert(Seq::<char>::empty() + dec(n as nat) =~= dec(n as nat));
    r
}

/// The whole number nearest to `num / den`; a half is rounded up.
pub open spec fn half_up(num: int, den: int) -> int {
    (2 * num + den) / (2 * den)
}

/// The whole number nearest to `num / den`; a half goes to the even neighbour.
pub open spec fn half_even(num: int, den: int) -> int {
    let q = num / den;
    let twice = 2 * (num % den);
    if twice < den || (twice == den && q % 2 == 0) {
        q
    } else {
        q + 1
    }
}

/// Neither rounding is off by more than a half.
pub proof fn law_rounding_is_nearest(num: int, den: int)
    requires
        0 <= num,
        0 < den,
    ensures
        -den <= 2 * (half_up(num, den) * den - num) <= den,
        -den <= 2 * (half_even(num, den) * den - num) <= den,
{
    let q = num / den;
    let r = num % den;
    vstd::arithmetic::div_mod::lemma_fundamental_div_mod(num, den);
    assert(q * den == den * q && (q + 1) * den == den * q + den) by (nonlinear_arith);
    lemma_half_up(num, den);
    let h = half_up(num, den);
    assert(h == q || h == q + 1);
}

/// Rounding a half up goes by whether the remainder is at least a half.
pub proof fn lemma_half_up(num: int, den: int)
    requires
        0 <= num,
        0 < den,
    ensures
        half_up(num, den) == num / den + if 2 * (num % den) >= den {
            1int
        } else {
            0int
        },
{
    let q = num / den;
    let r = num % den;
    vstd::arithmetic::div_mod::lemma_fundamental_div_mod(num, den);
    let up = if 2 * r >= den {
        1int
    } else {
        0int
    };
    let rest = 2 * r + den - up * (2 * den);
    assert(2 * num + den == (q + up) * (2 * den) + rest) by (nonlinear_arith)
        requires
            num == den * q + r,
            rest == 2 * r + den - up * (2 * den),
    ;
    assert(0 <= rest < 2 * den) by (nonlinear_arith)
        requires
            up == (if 2 * r >= den {
                1int
            } else {
                0int
            }),
            0 <= r < den,
            rest == 2 * r + den - up * (2 * den),
    ;
    vstd::arithmetic::div_mod::lemma_fundamental_div_mod_converse(
        2 * num + den,
        2 * den,
        q + up,
        rest,
    );
}

/// A rounded quotient is no more than one above the number that is divided.
pub proof fn lemma_rounds_below(num: int, den: int)
    requires
        0 <= num,
        0 < den,
    ensures
        0 <= half_up(num, den) <= num + 1,
        0 <= half_even(num, den) <= num + 1,
{
    lemma_half_up(num, den);
    vstd::arithmetic::div_mod::lemma_div_pos_is_pos(num, den);
    vstd::arithmetic::div_mod::lemma_div_is_ordered_by_denominator(num, 1, den);
    assert(num / 1 == num);
}

/// The whole number nearest to `num / den`; a half is rounded up.
pub fn round_half_up(num: u128, den: u128) -> (r: u128)
    requires
        0 < den,
    ensures
        r == half_up(num as int, den as int),
{
    let q: u128 = num / den;
    let rem: u128 = num % den;
    proof {
        lemma_half_up(num as int, den as int);
    }
    if rem >= den - rem {
        proof {
            lemma_quotient_has_room(num as int, den as int);
        }
        q + 1
    } else {
        q
    }
}

/// The whole number nearest to `num / den`; a half goes to the even neighbour.
pub fn round_half_even(num: u128, den: u128) -> (r: u128)
    requires
        0 < den,
    ensures
        r == half_even(num as int, den as int),
{
    let q: u128 = num / den;
    let rem: u128 = num % den;
    if rem < den - rem || (rem == den - rem && q % 2 == 0) {
        q
    } else {
        proof {
            lemma_quotient_has_room(num as int, den as int);
        }
        q + 1
    }
}

/// Where something remains, the quotient is not the largest number.
proof fn lemma_quotient_has_room(num: int, den: int)
    requires
        0 <= num <= u128::MAX,
        0 < den,
        0 < num % den,
    ensures
        num / den < u128::MAX,
{
    vstd::arithmetic::div_mod::lemma_fundamental_div_mod(num, den);
    let q = num / den;
    assert(q <= den * q) by (nonlinear_arith)
        requires
            0 < den,
            0 <= q,
    ;
    vstd::arithmetic::div_mod::lemma_div_pos_is_pos(num, den);
}

/// A number of tenths, with one decimal place.
pub open spec fn tenths_text(tenths: nat) -> Seq<char> {
    dec(tenths / 10) + "."@ + dec(tenths % 10)
}

/// A number of tenths, with one decimal place.
pub fn decimal_tenths(tenths: u64) -> (r: String)
    ensures
        r@ == tenths_text(tenths as nat),
{
    let mut r = decimal(tenths / 10);
    r.append(".");
    r.append(decimal(tenths % 10).as_str());
    r
}

/// A numeral is written digit by digit: the last digit of `10 * n + d` is `d`,
/// and before it stands the numeral of `n`, or nothing where `n` is 0.
pub proof fn law_numerals_are_positional(n: nat, d: nat)
    requires
        d < 10,
    ensures
        dec(d) == seq![digit(d as int)],
        n > 0 ==> dec(10 * n + d) == dec(n).push(digit(d as int)),
        digit(0) == '0' && digit(1) == '1' && digit(2) == '2' && digit(3) == '3' && digit(4) == '4',
        digit(5) == '5' && digit(6) == '6' && digit(7) == '7' && digit(8) == '8' && digit(9) == '9',
{
    assert((10 * n + d) / 10 == n);
    assert((10 * n + d) % 10 == d);
}

/// Of a number half way between two whole ones, one rounding takes the upper
/// and the other the even one.
pub proof fn law_ties_go_up_or_to_the_even(q: int, den: int)
    requires
        0 <= q,
        0 < den,
    ensures
        half_up((2 * q + 1) * den, 2 * den) == q + 1,
        half_even((2 * q + 1) * den, 2 * den) == if q % 2 == 0 {
            q
        } else {
            q + 1
        },
{
    let num = (2 * q + 1) * den;
    assert(num == q * (2 * den) + den) by (nonlinear_arith)
        requires
            num == (2 * q + 1) * den,
    ;
    vstd::arithmetic::div_mod::lemma_fundamental_div_mod_converse(num, 2 * den, q, den);
    assert(0 <= num) by (nonlinear_arith)
        requires
            num == (2 * q + 1) * den,
            0 <= q,
            0 < den,
    ;
    lemma_half_up(num, 2 * den);
}

/// A number of tenths is written as the whole number, a point and one digit.
pub proof fn law_tenths_have_one_decimal(whole: nat, d: nat)
    requires
        d < 10,
    ensures
        tenths_text(10 * whole + d) == dec(whole).push('.').push(digit(d as int)),
{
    reveal_strlit(".");
    assert((10 * whole + d) / 10 == whole);
    assert((10 * whole + d) % 10 == d);
    assert("."@ =~= seq!['.']);
    assert(tenths_text(10 * whole + d) =~= dec(whole).push('.').push(digit(d as int)));
}

} // verus!
