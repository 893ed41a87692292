//! Text primitives: white space, lines and prefixes, each stated over sequences
//! of characters.

use vstd::prelude::*;

verus! {

/// `String::push` puts one character behind the text.
pub assume_specification[ String::push ](s: &mut String, c: char)
    ensures
        final(s)@ == old(s)@.push(c),
;

/// The characters with the Unicode property `White_Space`.
pub open spec fn is_white(c: char) -> bool {
    let u = c as u32;
    ||| 0x09 <= u <= 0x0d
    ||| u == 0x20
    ||| u == 0x85
    ||| u == 0xa0
    ||| u == 0x1680
    ||| 0x2000 <= u <= 0x200a
    ||| u == 0x2028
    ||| u == 0x2029
    ||| u == 0x202f
    ||| u == 0x205f
    ||| u == 0x3000
}

/// `s` without its leading white space.
pub open spec fn trim_start(s: Seq<char>) -> Seq<char>
    decreases s.len(),
{
    if s.len() > 0 && is_white(s[0]) {
        trim_start(s.drop_first())
    } else {
        s
    }
}

/// `s` without its trailing white space.
pub open spec fn trim_end(s: Seq<char>) -> Seq<char>
    decreases s.len(),
{
    if s.len() > 0 && is_white(s.last()) {
        trim_end(s.drop_last())
    } else {
        s
    }
}

/// `s` without white space at either end.
pub open spec fn trimmed(s: Seq<char>) -> Seq<char> {
    trim_end(trim_start(s))
}

/// Where `c` first occurs in `s`; the length of `s` if it does not.
pub open spec fn first_at(s: Seq<char>, c: char) -> int
    decreases s.len(),
{
    if s.len() == 0 || s[0] == c {
        0
    } else {
        1 + first_at(s.drop_first(), c)
    }
}

/// Whether `s` begins with `prefix`.
pub open spec fn has_prefix(s: Seq<char>, prefix: Seq<char>) -> bool {
    prefix.len() <= s.len() && s.take(prefix.len() as int) == prefix
}

/// `line` without one carriage return at its end.
pub open spec fn without_cr(line: Seq<char>) -> Seq<char> {
    if line.len() > 0 && line.last() == '\r' {
        line.drop_last()
    } else {
        line
    }
}

/// The lines of `s`: each ends at a line feed, or at the end of the text. The
/// line feed, and a carriage return right before it, are not part of the line.
pub open spec fn lines_of(s: Seq<char>) -> Seq<Seq<char>>
    decreases s.len(),
    via lines_of_ends
{
    let at = first_at(s, '\n');
    if s.len() == 0 {
        Seq::empty()
    } else if at < s.len() {
        seq![without_cr(s.take(at))] + lines_of(s.skip(at + 1))
    } else {
        seq![s]
    }
}

#[via_fn]
proof fn lines_of_ends(s: Seq<char>) {
    lemma_first_at(s, '\n');
}

/// `first_at` is the first index that holds `c`.
pub proof fn lemma_first_at(s: Seq<char>, c: char)
    ensures
        0 <= first_at(s, c) <= s.len(),
        first_at(s, c) < s.len() ==> s[first_at(s, c)] == c,
        forall|i: int| 0 <= i < first_at(s, c) ==> s[i] != c,
    decreases s.len(),
{
    if s.len() > 0 && s[0] != c {
        lemma_first_at(s.drop_first(), c);
        assert forall|i: int| 0 <= i < first_at(s, c) implies s[i] != c by {
            if i > 0 {
                assert(s[i] == s.drop_first()[i - 1]);
            }
        }
    }
}

/// An index that holds `c`, with none before it, is `first_at`.
pub proof fn lemma_first_at_is(s: Seq<char>, c: char, at: int)
    requires
        0 <= at <= s.len(),
        at < s.len() ==> s[at] == c,
        forall|i: int| 0 <= i < at ==> s[i] != c,
    ensures
        first_at(s, c) == at,
{
    lemma_first_at(s, c);
    let f = first_at(s, c);
    if f < at {
        assert(s[f] != c);
    } else if at < f {
        assert(s[at] != c);
    }
}

proof fn lemma_trim_start_skip(s: Seq<char>, n: int)
    requires
        0 <= n <= s.len(),
        forall|i: int| 0 <= i < n ==> is_white(s[i]),
        n < s.len() ==> !is_white(s[n]),
    ensures
        trim_start(s) == s.skip(n),
    decreases n,
{
    if n == 0 {
        assert(s.skip(0) == s);
    } else {
        let t = s.drop_first();
        assert forall|i: int| 0 <= i < n - 1 implies is_white(t[i]) by {
            assert(t[i] == s[i + 1]);
        }
        lemma_trim_start_skip(t, n - 1);
        assert(t.skip(n - 1) == s.skip(n));
    }
}

proof fn lemma_trim_end_take(s: Seq<char>, n: int)
    requires
        0 <= n <= s.len(),
        forall|i: int| n <= i < s.len() ==> is_white(s[i]),
        n > 0 ==> !is_white(s[n - 1]),
    ensures
        trim_end(s) == s.take(n),
    decreases s.len() - n,
{
    if n == s.len() {
        assert(s.take(n) == s);
    } else {
        lemma_trim_end_take(s.drop_last(), n);
        assert(s.drop_last().take(n) == s.take(n));
    }
}

/// The text of an optional string.
pub open spec fn text_of(s: Option<String>) -> Option<Seq<char>> {
    match s {
        Some(t) => Some(t@),
        None => None,
    }
}

/// The texts of a list of strings.
pub open spec fn texts_of(list: Seq<String>) -> Seq<Seq<char>> {
    list.map_values(|s: String| s@)
}

/// A copy of an optional string.
pub fn copy_text(s: &Option<String>) -> (r: Option<String>)
    ensures
        text_of(r) == text_of(*s),
{
    match s {
        Some(t) => Some(t.clone()),
        None => None,
    }
}

/// A copy of a list of strings.
pub fn copy_texts(list: &Vec<String>) -> (r: Vec<String>)
    ensures
        texts_of(r@) == texts_of(list@),
{
    let mut r: Vec<String> = Vec::new();
    let mut i: usize = 0;
    while i < list.len()
        invariant
            i <= list.len(),
            r@.len() == i,
            forall|j: int| 0 <= j < i ==> (#[trigger] r@[j])@ == list@[j]@,
        decreases list.len() - i,
    {
        r.push(list[i].clone());
        i += 1;
    }
    assert(texts_of(r@) =~= texts_of(list@));
    r
}

/// Whether `list` holds the text of `s`.
pub fn contains_text(list: &Vec<String>, s: &String) -> (r: bool)
    ensures
        r == texts_of(list@).contains(s@),
{
    let mut i: usize = 0;
    while i < list.len()
        invariant
            i <= list.len(),
            forall|j: int| 0 <= j < i ==> (#[trigger] texts_of(list@)[j]) != s@,
        decreases list.len() - i,
    {
        assert(texts_of(list@)[i as int] == list@[i as int]@);
        if list[i] == *s {
            return true;
        }
        i += 1;
    }
    false
}

/// `s` has no white space at either end, or is empty, once trimmed.
pub proof fn law_trimmed_has_bare_ends(s: Seq<char>)
    ensures
        trimmed(s).len() > 0 ==> !is_white(trimmed(s)[0]) && !is_white(trimmed(s).last()),
        trimmed(trimmed(s)) == trimmed(s),
{
    lemma_trim_start_ends(s);
    lemma_trim_end_ends(trim_start(s));
}

proof fn lemma_trim_start_ends(s: Seq<char>)
    ensures
        trim_start(s).len() > 0 ==> !is_white(trim_start(s)[0]),
    decreases s.len(),
{
    if s.len() > 0 && is_white(s[0]) {
        lemma_trim_start_ends(s.drop_first());
    }
}

proof fn lemma_trim_end_ends(s: Seq<char>)
    ensures
        trim_end(s).len() > 0 ==> trim_end(s)[0] == s[0] && !is_white(trim_end(s).last()),
    decreases s.len(),
{
    if s.len() > 0 && is_white(s.last()) {
        lemma_trim_end_ends(s.drop_last());
    }
}

/// The characters of `s`, in order.
pub fn chars_of(s: &str) -> (r: Vec<char>)
    ensures
        r@ == s@,
{
    let mut r: Vec<char> = Vec::new();
    for c in it: s.chars()
        invariant
            it.seq() == s@,
            r@ == s@.take(it.index() as int),
    {
        r.push(c);
        assert(s@.take(it.index() as int + 1) == s@.take(it.index() as int).push(c));
    }
    assert(s@.take(s@.len() as int) == s@);
    r
}

/// The text that `chars` spell.
pub fn string_of(chars: &[char]) -> (r: String)
    ensures
        r@ == chars@,
{
    let mut r = String::new();
    let mut i: usize = 0;
    while i < chars.len()
        invariant
            i <= chars.len(),
            r@ == chars@.take(i as int),
        decreases chars.len() - i,
    {
        r.push(chars[i]);
        assert(chars@.take(i as int + 1) == chars@.take(i as int).push(chars@[i as int]));
        i += 1;
    }
    assert(chars@.take(chars@.len() as int) == chars@);
    r
}

/// Whether `c` is white space.
pub fn is_whitespace(c: char) -> (r: bool)
    ensures
        r == is_white(c),
{
    let u: u32 = c as u32;
    (0x09 <= u && u <= 0x0d) || u == 0x20 || u == 0x85 || u == 0xa0 || u == 0x1680 || (0x2000 <= u
        && u <= 0x200a) || u == 0x2028 || u == 0x2029 || u == 0x202f || u == 0x205f || u == 0x3000
}

/// `s` without white space at either end.
pub fn trim(s: &[char]) -> (r: &[char])
    ensures
        r@ == trimmed(s@),
{
    let mut from: usize = 0;
    while from < s.len() && is_whitespace(s[from])
        invariant
            from <= s.len(),
            forall|i: int| 0 <= i < from ==> is_white(s@[i]),
        decreases s.len() - from,
    {
        from += 1;
    }
    let mut to: usize = s.len();
    while from < to && is_whitespace(s[to - 1])
        invariant
            from <= to <= s.len(),
            from < s.len() ==> !is_white(s@[from as int]),
            forall|i: int| to <= i < s.len() ==> is_white(s@[i]),
        decreases to,
    {
        to -= 1;
    }
    proof {
        lemma_trim_start_skip(s@, from as int);
        let t = s@.skip(from as int);
        assert forall|i: int| to - from <= i < t.len() implies is_white(t[i]) by {
            assert(t[i] == s@[i + from]);
        }
        lemma_trim_end_take(t, to - from);
        assert(t.take(to - from) == s@.subrange(from as int, to as int));
    }
    &s[from..to]
}

/// Where `c` first occurs in `s`; the length of `s` if it does not.
pub fn find(s: &[char], c: char) -> (r: usize)
    ensures
        r == first_at(s@, c),
{
    let mut at: usize = 0;
    while at < s.len() && s[at] != c
        invariant
            at <= s.len(),
            forall|i: int| 0 <= i < at ==> s@[i] != c,
        decreases s.len() - at,
    {
        at += 1;
    }
    proof {
        lemma_first_at_is(s@, c, at as int);
    }
    at
}

/// What follows `prefix` in `s`; `None` if `s` does not begin with it.
pub fn strip_prefix<'a>(s: &'a [char], prefix: &str) -> (r: Option<&'a [char]>)
    ensures
        match r {
            Some(rest) => has_prefix(s@, prefix@) && rest@ == s@.skip(prefix@.len() as int),
            None => !has_prefix(s@, prefix@),
        },
{
    let p = chars_of(prefix);
    if p.len() > s.len() {
        return None;
    }
    let mut i: usize = 0;
    while i < p.len()
        invariant
            i <= p.len() <= s.len(),
            p@ == prefix@,
            s@.take(i as int) == p@.take(i as int),
        decreases p.len() - i,
    {
        if s[i] != p[i] {
            assert(s@.take(p@.len() as int)[i as int] == s@[i as int]);
            return None;
        }
        assert(s@.take(i as int + 1) == s@.take(i as int).push(s@[i as int]));
        assert(p@.take(i as int + 1) == p@.take(i as int).push(p@[i as int]));
        i += 1;
    }
    assert(p@.take(p@.len() as int) == p@);
    Some(&s[p.len()..s.len()])
}

/// The lines of `s`.
pub fn lines(s: &[char]) -> (r: Vec<&[char]>)
    ensures
        r@.len() == lines_of(s@).len(),
        forall|i: int| 0 <= i < r@.len() ==> (#[trigger] r@[i])@ == lines_of(s@)[i],
{
    let mut r: Vec<&[char]> = Vec::new();
    let mut rest: &[char] = s;
    while rest.len() > 0
        invariant
            r@.len() + lines_of(rest@).len() == lines_of(s@).len(),
            forall|i: int| 0 <= i < r@.len() ==> (#[trigger] r@[i])@ == lines_of(s@)[i],
            forall|i: int|
                0 <= i < lines_of(rest@).len() ==> #[trigger] lines_of(rest@)[i] == lines_of(s@)[i
                    + r@.len()],
        decreases rest.len(),
    {
        let at = find(rest, '\n');
        let ghost all = lines_of(rest@);
        proof {
            lemma_first_at(rest@, '\n');
        }
        if at < rest.len() {
            let mut to: usize = at;
            if to > 0 && rest[to - 1] == '\r' {
                to -= 1;
            }
            let line: &[char] = &rest[0..to];
            assert(line@ == without_cr(rest@.take(at as int)));
            assert(all[0] == line@);
            r.push(line);
            let ghost tail = lines_of(rest@.skip(at as int + 1));
            assert(all == seq![line@] + tail);
            rest = &rest[at + 1..rest.len()];
            assert(lines_of(rest@) == tail);
            assert forall|i: int| 0 <= i < tail.len() implies #[trigger] tail[i] == lines_of(s@)[i
                + r@.len()] by {
                assert(tail[i] == all[i + 1]);
            }
        } else {
            assert(all == seq![rest@]);
            assert(all[0] == rest@);
            r.push(rest);
            rest = &rest[at..rest.len()];
            assert(lines_of(rest@).len() == 0);
        }
    }
    r
}

/// Trimming takes away the white space at the ends and nothing else: what is
/// left is the text between the first character that is not white and the
/// last. Text that is all white leaves nothing.
pub proof fn law_trimmed_is_all_between_the_white_ends(s: Seq<char>, from: int, to: int)
    requires
        0 <= from <= to <= s.len(),
        forall|i: int| 0 <= i < from ==> is_white(#[trigger] s[i]),
        forall|i: int| to <= i < s.len() ==> is_white(#[trigger] s[i]),
        from < to ==> !is_white(s[from]) && !is_white(s[to - 1]),
    ensures
        trimmed(s) == s.subrange(from, to),
{
    if from < to {
        lemma_trim_start_skip(s, from);
        let t = s.skip(from);
        assert forall|i: int| to - from <= i < t.len() implies is_white(t[i]) by {
            assert(t[i] == s[i + from]);
        }
        lemma_trim_end_take(t, to - from);
        assert(t.take(to - from) =~= s.subrange(from, to));
    } else {
        lemma_trim_start_skip(s, s.len() as int);
        assert(s.skip(s.len() as int) =~= Seq::<char>::empty());
        assert(s.subrange(from, to) =~= Seq::<char>::empty());
    }
}

/// A text begins with a prefix exactly when it is the prefix and more.
pub proof fn law_a_prefix_is_followed_by_the_rest(s: Seq<char>, prefix: Seq<char>, rest: Seq<char>)
    ensures
        has_prefix(prefix + rest, prefix),
        (prefix + rest).skip(prefix.len() as int) == rest,
        has_prefix(s, prefix) ==> s == prefix + s.skip(prefix.len() as int),
        has_prefix(s, prefix) ==> prefix.len() <= s.len(),
{
    assert((prefix + rest).take(prefix.len() as int) =~= prefix);
    assert((prefix + rest).skip(prefix.len() as int) =~= rest);
    if has_prefix(s, prefix) {
        assert(s =~= s.take(prefix.len() as int) + s.skip(prefix.len() as int));
    }
}

/// Where a character first occurs: it stands there, and not before.
pub proof fn law_the_first_occurrence_is_found(before: Seq<char>, c: char, after: Seq<char>)
    requires
        forall|i: int| 0 <= i < before.len() ==> before[i] != c,
    ensures
        first_at(before.push(c) + after, c) == before.len(),
        first_at(before, c) == before.len(),
{
    let s = before.push(c) + after;
    assert forall|i: int| 0 <= i < before.len() implies s[i] != c by {
        assert(s[i] == before[i]);
    }
    assert(s[before.len() as int] == c);
    lemma_first_at_is(s, c, before.len() as int);
    lemma_first_at_is(before, c, before.len() as int);
}

/// Every line of a text is one of its lines, in order: the first is what stands
/// before the first line feed, without a carriage return right before it, and
/// the others are the lines of what follows. Text behind the last line feed is
/// a line too, unless it is empty.
pub proof fn law_lines_end_at_line_feeds(line: Seq<char>, rest: Seq<char>)
    requires
        !line.contains('\n'),
    ensures
        line.len() == 0 || line.last() != '\r' ==> lines_of(line.push('\n') + rest) == seq![line]
            + lines_of(rest),
        lines_of(line.push('\r').push('\n') + rest) == seq![line] + lines_of(rest),
        line.len() > 0 ==> lines_of(line) == seq![line],
        lines_of(Seq::<char>::empty()) == Seq::<Seq<char>>::empty(),
{
    assert forall|i: int| 0 <= i < line.len() implies line[i] != '\n' by {
        if line[i] == '\n' {
            assert(line.contains('\n'));
        }
    }
    law_the_first_occurrence_is_found(line, '\n', rest);
    let s = line.push('\n') + rest;
    assert(s.take(line.len() as int) =~= line);
    assert(s.skip(line.len() as int + 1) =~= rest);
    let with_cr = line.push('\r');
    assert forall|i: int| 0 <= i < with_cr.len() implies with_cr[i] != '\n' by {
        if i < line.len() {
            assert(with_cr[i] == line[i]);
        }
    }
    law_the_first_occurrence_is_found(with_cr, '\n', rest);
    let t = with_cr.push('\n') + rest;
    assert(t.take(with_cr.len() as int) =~= with_cr);
    assert(t.skip(with_cr.len() as int + 1) =~= rest);
    assert(with_cr.drop_last() =~= line);
}

/// The texts of strings are told in full: every one, in order.
pub proof fn law_texts_are_told_in_full(s: String, list: Seq<String>, i: int)
    ensures
        text_of(Some(s)) == Some(s@),
        text_of(None) is None,
        texts_of(list).len() == list.len(),
        0 <= i < list.len() ==> texts_of(list)[i] == list[i]@,
{
}

} // verus!
