//! IP addresses in text.

use vstd::prelude::*;
use crate::numeral::{dec, digit, lemma_dec_small};
use crate::text::{chars_of, find, first_at, lemma_first_at, lemma_first_at_is, string_of};

verus! {

/// The text without what begins at the first `%`: an IPv6 zone id.
pub open spec fn without_zone(addr: Seq<char>) -> Seq<char> {
    addr.take(first_at(addr, '%'))
}

/// Drop an IPv6 zone-id suffix ("%en0") for display purposes.
pub fn strip_zone(addr: &str) -> (r: String)
    ensures
        r@ == without_zone(addr@),
{
    let chars = chars_of(addr);
    let at = find(chars.as_slice(), '%');
    proof {
        lemma_first_at(addr@, '%');
    }
    string_of(&chars.as_slice()[0..at])
}

/// The family of an address.
#[derive(Clone, Copy, Debug, PartialEq, Eq, Structural)]
pub enum ChipKind {
    V4,
    V6,
}

/// The family of an address: with a colon in it, it is IPv6.
pub fn ip_kind(ip: &str) -> (r: ChipKind)
    ensures
        r == if ip@.contains(':') {
            ChipKind::V6
        } else {
            ChipKind::V4
        },
{
    let chars = chars_of(ip);
    let at = find(chars.as_slice(), ':');
    proof {
        lemma_first_at(ip@, ':');
    }
    if at < chars.len() {
        assert(ip@[at as int] == ':');
        ChipKind::V6
    } else {
        ChipKind::V4
    }
}

/// The dotted form of an IPv4 address.
pub open spec fn ipv4_text(a: u8, b: u8, c: u8, d: u8) -> Seq<char> {
    dec(a as nat) + seq!['.'] + dec(b as nat) + seq!['.'] + dec(c as nat) + seq!['.'] + dec(
        d as nat,
    )
}

/// The number that a single decimal digit stands for.
fn digit_value(c: char) -> (r: Option<u8>)
    ensures
        match r {
            Some(d) => d < 10 && c == digit(d as int),
            None => forall|d: int| 0 <= d < 10 ==> c != #[trigger] digit(d),
        },
{
    let u: u32 = c as u32;
    if 48 <= u && u <= 57 {
        Some((u - 48) as u8)
    } else {
        None
    }
}

/// The octet that `s` spells, without leading zeros.
fn parse_octet(s: &[char]) -> (r: Option<u8>)
    ensures
        match r {
            Some(v) => s@ == dec(v as nat),
            None => forall|v: u8| s@ != #[trigger] dec(v as nat),
        },
{
    proof {
        assert forall|v: u8| #[trigger] dec(v as nat).len() <= 3 && dec(v as nat).len() > 0 by {
            lemma_dec_small(v as nat);
        }
    }
    if s.len() == 0 || s.len() > 3 {
        return None;
    }
    let mut value: u32 = 0;
    let mut i: usize = 0;
    let ghost mut digits: Seq<int> = Seq::empty();
    while i < s.len()
        invariant
            i <= s@.len() <= 3,
            digits.len() == i,
            forall|j: int| 0 <= j < i ==> 0 <= #[trigger] digits[j] < 10 && s@[j] == digit(digits[j]),
            i == 0 ==> value == 0,
            i == 1 ==> value == digits[0],
            i == 2 ==> value == 10 * digits[0] + digits[1],
            i == 3 ==> value == 100 * digits[0] + 10 * digits[1] + digits[2],
            forall|v: u8| #[trigger] dec(v as nat).len() <= 3 && dec(v as nat).len() > 0,
        decreases s.len() - i,
    {
        match digit_value(s[i]) {
            Some(d) => {
                value = 10 * value + d as u32;
                proof {
                    digits = digits.push(d as int);
                }
            },
            None => {
                assert forall|v: u8| s@ != #[trigger] dec(v as nat) by {
                    lemma_dec_small(v as nat);
                    if s@ == dec(v as nat) {
                        assert(s@[i as int] == dec(v as nat)[i as int]);
                    }
                }
                return None;
            },
        }
        i += 1;
    }
    proof {
        assert forall|v: u8| s@ == #[trigger] dec(v as nat) implies v == value && (digits[0] > 0
            || s@.len() == 1) by {
            lemma_dec_small(v as nat);
            assert(s@[0] == dec(v as nat)[0]);
            if s@.len() > 1 {
                assert(s@[1] == dec(v as nat)[1]);
            }
            if s@.len() > 2 {
                assert(s@[2] == dec(v as nat)[2]);
            }
        }
    }
    if value > 255 || (s.len() > 1 && s[0] == '0') {
        assert(s@.len() > 1 && s@[0] == '0' ==> digits[0] == 0);
        return None;
    }
    proof {
        lemma_dec_small(value as nat);
        assert(s@[0] == digit(digits[0]));
        assert(digits[0] == 0 ==> s@[0] == '0');
        if s@.len() == 1 {
            assert(s@ =~= dec(value as nat));
        } else if s@.len() == 2 {
            assert(s@[1] == digit(digits[1]));
            assert(s@ =~= dec(value as nat));
        } else {
            assert(s@[1] == digit(digits[1]));
            assert(s@[2] == digit(digits[2]));
            assert(s@ =~= dec(value as nat));
        }
    }
    Some(value as u8)
}

/// A numeral has no dot in it.
proof fn lemma_octet_without_dot(v: u8)
    ensures
        forall|i: int| 0 <= i < dec(v as nat).len() ==> dec(v as nat)[i] != '.',
{
    lemma_dec_small(v as nat);
}

/// Where the first dot stands in a numeral that a dot and more follow.
proof fn lemma_dot_behind_octet(v: u8, rest: Seq<char>)
    ensures
        ({
            let s = dec(v as nat) + seq!['.'] + rest;
            let n = dec(v as nat).len() as int;
            &&& first_at(s, '.') == n
            &&& s.take(n) == dec(v as nat)
            &&& s.skip(n + 1) == rest
            &&& n < s.len()
        }),
{
    lemma_octet_without_dot(v);
    let s = dec(v as nat) + seq!['.'] + rest;
    let n = dec(v as nat).len() as int;
    assert forall|i: int| 0 <= i < n implies s[i] != '.' by {
        assert(s[i] == dec(v as nat)[i]);
    }
    assert(s[n] == '.');
    lemma_first_at_is(s, '.', n);
    assert(s.take(n) =~= dec(v as nat));
    assert(s.skip(n + 1) =~= rest);
}

/// The octet before the first dot of `s`, and what follows that dot.
fn parse_octet_and_dot<'a>(s: &'a [char]) -> (r: Option<(u8, &'a [char])>)
    ensures
        match r {
            Some((v, rest)) => s@ == dec(v as nat) + seq!['.'] + rest@,
            None => forall|v: u8, rest: Seq<char>|
                s@ != #[trigger] (dec(v as nat) + seq!['.'] + rest),
        },
{
    let at = find(s, '.');
    proof {
        lemma_first_at(s@, '.');
        assert forall|v: u8, rest: Seq<char>|
            s@ == #[trigger] (dec(v as nat) + seq!['.'] + rest) implies at < s@.len() && s@.take(
            at as int,
        ) == dec(v as nat) by {
            lemma_dot_behind_octet(v, rest);
        }
    }
    if at >= s.len() {
        return None;
    }
    let head: &[char] = &s[0..at];
    let rest: &[char] = &s[at + 1..s.len()];
    assert(head@ == s@.take(at as int));
    match parse_octet(head) {
        Some(v) => {
            assert(s@ =~= dec(v as nat) + seq!['.'] + rest@);
            Some((v, rest))
        },
        None => None,
    }
}

/// The octets of a dotted IPv4 address; `None` if `s` is not one.
pub fn parse_ipv4(s: &str) -> (r: Option<(u8, u8, u8, u8)>)
    ensures
        match r {
            Some((a, b, c, d)) => s@ == ipv4_text(a, b, c, d),
            None => forall|a: u8, b: u8, c: u8, d: u8| s@ != #[trigger] ipv4_text(a, b, c, d),
        },
{
    let chars = chars_of(s);
    let ghost dot = seq!['.'];
    proof {
        assert forall|a: u8, b: u8, c: u8, d: u8| #[trigger]
            ipv4_text(a, b, c, d) == dec(a as nat) + dot + (dec(b as nat) + dot + (dec(c as nat)
                + dot + dec(d as nat))) by {
            assert(ipv4_text(a, b, c, d) =~= dec(a as nat) + dot + (dec(b as nat) + dot + (dec(
                c as nat,
            ) + dot + dec(d as nat))));
        }
    }
    let (a, s1) = match parse_octet_and_dot(chars.as_slice()) {
        Some(x) => x,
        None => return None,
    };
    proof {
        assert forall|w: u8, x: u8, y: u8, z: u8| s@ == #[trigger] ipv4_text(w, x, y, z) implies a
            == w && s1@ == dec(x as nat) + dot + (dec(y as nat) + dot + dec(z as nat)) by {
            lemma_dot_behind_octet(w, dec(x as nat) + dot + (dec(y as nat) + dot + dec(z as nat)));
            lemma_dot_behind_octet(a, s1@);
            lemma_octet_unique(a, w);
        }
    }
    let (b, s2) = match parse_octet_and_dot(s1) {
        Some(x) => x,
        None => return None,
    };
    proof {
        assert forall|w: u8, x: u8, y: u8, z: u8| s@ == #[trigger] ipv4_text(w, x, y, z) implies b
            == x && s2@ == dec(y as nat) + dot + dec(z as nat) by {
            lemma_dot_behind_octet(x, dec(y as nat) + dot + dec(z as nat));
            lemma_dot_behind_octet(b, s2@);
            lemma_octet_unique(b, x);
        }
    }
    let (c, s3) = match parse_octet_and_dot(s2) {
        Some(x) => x,
        None => return None,
    };
    proof {
        assert forall|w: u8, x: u8, y: u8, z: u8| s@ == #[trigger] ipv4_text(w, x, y, z) implies c
            == y && s3@ == dec(z as nat) by {
            lemma_dot_behind_octet(y, dec(z as nat));
            lemma_dot_behind_octet(c, s3@);
            lemma_octet_unique(c, y);
        }
    }
    match parse_octet(s3) {
        Some(d) => {
            assert(s@ == ipv4_text(a, b, c, d));
            Some((a, b, c, d))
        },
        None => None,
    }
}

/// Different octets are written differently.
proof fn lemma_octet_unique(v: u8, w: u8)
    ensures
        dec(v as nat) == dec(w as nat) ==> v == w,
{
    lemma_dec_small(v as nat);
    lemma_dec_small(w as nat);
    let (p, q) = (dec(v as nat), dec(w as nat));
    if p == q {
        assert(p[0] == q[0]);
        if p.len() > 1 {
            assert(p[1] == q[1]);
        }
        if p.len() > 2 {
            assert(p[2] == q[2]);
        }
    }
}

/// The octets of an address are read back from its dotted form.
pub proof fn law_dotted_form_is_unique(a: u8, b: u8, c: u8, d: u8, w: u8, x: u8, y: u8, z: u8)
    requires
        ipv4_text(a, b, c, d) == ipv4_text(w, x, y, z),
    ensures
        a == w && b == x && c == y && d == z,
{
    let dot = seq!['.'];
    let (p3, q3) = (dec(d as nat), dec(z as nat));
    let (p2, q2) = (dec(c as nat) + dot + p3, dec(y as nat) + dot + q3);
    let (p1, q1) = (dec(b as nat) + dot + p2, dec(x as nat) + dot + q2);
    assert(ipv4_text(a, b, c, d) =~= dec(a as nat) + dot + p1);
    assert(ipv4_text(w, x, y, z) =~= dec(w as nat) + dot + q1);
    lemma_dot_behind_octet(a, p1);
    lemma_dot_behind_octet(w, q1);
    lemma_dot_behind_octet(b, p2);
    lemma_dot_behind_octet(x, q2);
    lemma_dot_behind_octet(c, p3);
    lemma_dot_behind_octet(y, q3);
    lemma_octet_unique(a, w);
    lemma_octet_unique(b, x);
    lemma_octet_unique(c, y);
    lemma_octet_unique(d, z);
}

/// Whether `ip` is an address of 192.0.0.0/29.
pub open spec fn in_clat_block(ip: Seq<char>) -> bool {
    exists|d: u8| d < 8 && ip == #[trigger] ipv4_text(192, 0, 0, d)
}

/// 192.0.0.0/29 is reserved by RFC 7335 for DNS64/NAT64 use. On IPv6-only
/// mobile networks with 464XLAT, macOS sets the IPv4 default gateway to
/// 192.0.0.1 as a CLAT placeholder — no real host lives there, so probing
/// it (ICMP or TCP) always times out.
pub fn is_clat_placeholder(ip: &str) -> (r: bool)
    ensures
        r == in_clat_block(ip@),
{
    match parse_ipv4(ip) {
        Some((a, b, c, d)) => {
            proof {
                if in_clat_block(ip@) {
                    let x = choose|x: u8| x < 8 && ip@ == #[trigger] ipv4_text(192, 0, 0, x);
                    law_dotted_form_is_unique(a, b, c, d, 192, 0, 0, x);
                }
            }
            a == 192 && b == 0 && c == 0 && d < 8
        },
        None => false,
    }
}

/// The zone id is what follows the first percent sign; without one there is
/// none.
pub proof fn law_the_zone_is_dropped(addr: Seq<char>, zone: Seq<char>)
    requires
        !addr.contains('%'),
    ensures
        without_zone(addr.push('%') + zone) == addr,
        without_zone(addr) == addr,
{
    assert forall|i: int| 0 <= i < addr.len() implies addr[i] != '%' by {
        if addr[i] == '%' {
            assert(addr.contains('%'));
        }
    }
    crate::text::law_the_first_occurrence_is_found(addr, '%', zone);
    assert((addr.push('%') + zone).take(addr.len() as int) =~= addr);
    assert(addr.take(addr.len() as int) =~= addr);
}

/// An address is written as its four octets in decimal, with dots between them.
pub proof fn law_an_address_is_four_octets(a: u8, b: u8, c: u8, d: u8)
    ensures
        ipv4_text(a, b, c, d) == dec(a as nat).push('.') + (dec(b as nat).push('.') + (dec(
            c as nat,
        ).push('.') + dec(d as nat))),
{
    assert(ipv4_text(a, b, c, d) =~= dec(a as nat).push('.') + (dec(b as nat).push('.') + (dec(
        c as nat,
    ).push('.') + dec(d as nat))));
}

/// The block holds the addresses from 192.0.0.0 to 192.0.0.7, and nothing else.
pub proof fn law_the_block_is_eight_addresses(ip: Seq<char>, a: u8, b: u8, c: u8, d: u8)
    ensures
        in_clat_block(ipv4_text(a, b, c, d)) <==> a == 192 && b == 0 && c == 0 && d <= 7,
        in_clat_block(ip) ==> exists|x: u8| x <= 7 && ip == #[trigger] ipv4_text(192, 0, 0, x),
{
    if in_clat_block(ipv4_text(a, b, c, d)) {
        let x = choose|x: u8| x < 8 && ipv4_text(a, b, c, d) == #[trigger] ipv4_text(192, 0, 0, x);
        law_dotted_form_is_unique(a, b, c, d, 192, 0, 0, x);
    }
}

} // verus!
