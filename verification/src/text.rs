//! Strings as sequences of characters: the few operations on names, paths and
//! patterns that the rest of the library is written with.

use vstd::prelude::*;

verus! {

/// The lower-case form of an ASCII letter; any other character as it is.
pub open spec fn lower(c: char) -> char {
    if 'A' <= c <= 'Z' {
        (c as u32 + 32) as char
    } else {
        c
    }
}

/// The upper-case form of an ASCII letter; any other character as it is.
pub open spec fn upper(c: char) -> char {
    if 'a' <= c <= 'z' {
        (c as u32 - 32) as char
    } else {
        c
    }
}

/// Every character of `s` in its ASCII lower-case form.
pub open spec fn lowered(s: Seq<char>) -> Seq<char> {
    Seq::new(s.len(), |i: int| lower(s[i]))
}

/// `s` with every `from` replaced by `to`.
pub open spec fn replaced(s: Seq<char>, from: char, to: char) -> Seq<char> {
    Seq::new(s.len(), |i: int| if s[i] == from { to } else { s[i] })
}

/// The position of the last `c` in `s`, or -1.
pub open spec fn last_of(s: Seq<char>, c: char) -> int
    decreases s.len(),
{
    if s.len() == 0 {
        -1
    } else if s.last() == c {
        s.len() - 1
    } else {
        last_of(s.drop_last(), c)
    }
}

/// `s` holds no end of a line.
pub open spec fn one_line(s: Seq<char>) -> bool {
    forall|i: int| 0 <= i < s.len() ==> #[trigger] s[i] != '\n'
}

/// The texts of a list, each as a sequence of characters.
pub open spec fn texts(parts: Seq<&str>) -> Seq<Seq<char>> {
    Seq::new(parts.len(), |i: int| parts[i]@)
}

/// `parts` in order, with `sep` between neighbours.
pub open spec fn joined(parts: Seq<Seq<char>>, sep: char) -> Seq<char>
    decreases parts.len(),
{
    if parts.len() == 0 {
        Seq::empty()
    } else if parts.len() == 1 {
        parts[0]
    } else {
        joined(parts.drop_last(), sep).push(sep) + parts.last()
    }
}

/// `std`'s `String::push`: the string grows by the one character, at its end.
pub assume_specification[ String::push ](s: &mut String, c: char)
    ensures
        final(s)@ == old(s)@.push(c),
;

/// `last_of` finds a `c` behind which there is none, or there is none at all.
pub proof fn lemma_last_of(s: Seq<char>, c: char)
    ensures
        -1 <= last_of(s, c) < s.len(),
        last_of(s, c) >= 0 ==> s[last_of(s, c)] == c,
        forall|i: int| last_of(s, c) < i < s.len() ==> #[trigger] s[i] != c,
    decreases s.len(),
{
    if s.len() > 0 && s.last() != c {
        lemma_last_of(s.drop_last(), c);
        assert forall|i: int| last_of(s, c) < i < s.len() implies #[trigger] s[i] != c by {
            if i < s.len() - 1 {
                assert(s.drop_last()[i] == s[i]);
            }
        }
    }
}

/// Lower-casing makes no dot and no slash.
pub proof fn lemma_lower_dot(c: char)
    ensures
        lower(c) == '.' <==> c == '.',
        lower(c) == '/' <==> c == '/',
{
}

/// Lower-casing leaves dots where they are.
pub proof fn lemma_dots_of_lowered(s: Seq<char>)
    ensures
        last_of(lowered(s), '.') == last_of(s, '.'),
    decreases s.len(),
{
    if s.len() > 0 {
        lemma_dots_of_lowered(s.drop_last());
        assert(lowered(s).drop_last() =~= lowered(s.drop_last()));
        lemma_lower_dot(s.last());
    }
}

/// Texts that differ only in the case of letters, character by character.
pub proof fn lemma_same_letters(a: Seq<char>, b: Seq<char>)
    requires
        lowered(a) == lowered(b),
    ensures
        a.len() == b.len(),
        forall|i: int| 0 <= i < a.len() ==> lower(#[trigger] a[i]) == lower(b[i]),
{
    assert(lowered(a).len() == a.len() && lowered(b).len() == b.len());
    assert forall|i: int| 0 <= i < a.len() implies lower(#[trigger] a[i]) == lower(b[i]) by {
        assert(lowered(a)[i] == lower(a[i]));
        assert(lowered(b)[i] == lower(b[i]));
    }
}

/// Texts that differ only in the case of letters have their last dot at the same place.
pub proof fn lemma_same_dots(a: Seq<char>, b: Seq<char>)
    requires
        lowered(a) == lowered(b),
    ensures
        last_of(a, '.') == last_of(b, '.'),
{
    lemma_dots_of_lowered(a);
    lemma_dots_of_lowered(b);
}

/// ASCII lower-casing of one character.
pub fn lower_char(c: char) -> (r: char)
    ensures
        r == lower(c),
{
    if 'A' <= c && c <= 'Z' {
        (c as u8 + 32) as char
    } else {
        c
    }
}

/// ASCII upper-casing of one character.
pub fn upper_char(c: char) -> (r: char)
    ensures
        r == upper(c),
{
    if 'a' <= c && c <= 'z' {
        (c as u8 - 32) as char
    } else {
        c
    }
}

/// The characters of `s`, in order.
pub fn chars_of(s: &str) -> (v: Vec<char>)
    ensures
        v@ == s@,
{
    let mut v: Vec<char> = Vec::new();
    for c in it: s.chars()
        invariant
            it.seq() == s@,
            v@ == s@.take(it.index() as int),
    {
        v.push(c);
        assert(s@.take(it.index() + 1) == s@.take(it.index() as int).push(c));
    }
    assert(s@.take(s@.len() as int) == s@);
    v
}

/// The string made of the characters of `v` from `from` up to `to`.
pub fn string_of(v: &Vec<char>, from: usize, to: usize) -> (s: String)
    requires
        from <= to <= v@.len(),
    ensures
        s@ == v@.subrange(from as int, to as int),
{
    let mut s = String::new();
    let mut i: usize = from;
    while i < to
        invariant
            from <= i <= to <= v@.len(),
            s@ == v@.subrange(from as int, i as int),
        decreases to - i,
    {
        s.push(v[i]);
        i += 1;
        assert(v@.subrange(from as int, i as int) == v@.subrange(from as int, i - 1).push(v@[i - 1]));
    }
    s
}

/// Whether two strings differ at most in the case of ASCII letters.
pub fn same_letters(s: &str, t: &str) -> (r: bool)
    ensures
        r == (lowered(s@) == lowered(t@)),
{
    let a = chars_of(s);
    let b = chars_of(t);
    if a.len() != b.len() {
        assert(lowered(s@).len() != lowered(t@).len());
        return false;
    }
    let mut i: usize = 0;
    while i < a.len()
        invariant
            i <= a@.len() == b@.len(),
            a@ == s@,
            b@ == t@,
            forall|j: int| 0 <= j < i ==> lower(a@[j]) == lower(b@[j]),
        decreases a@.len() - i,
    {
        if lower_char(a[i]) != lower_char(b[i]) {
            assert(lowered(s@)[i as int] != lowered(t@)[i as int]);
            return false;
        }
        i += 1;
    }
    assert(lowered(s@) =~= lowered(t@));
    true
}

/// Whether a string holds a given text.
pub fn is_text(s: &String, t: &str) -> (r: bool)
    ensures
        r == (s@ == t@),
{
    *s == t.to_owned()
}

/// The string made of the lower-cased characters of `v` from `from` on.
pub fn lower_string_from(v: &Vec<char>, from: usize) -> (s: String)
    requires
        from <= v@.len(),
    ensures
        s@ == lowered(v@.skip(from as int)),
{
    let mut s = String::new();
    let mut i: usize = from;
    while i < v.len()
        invariant
            from <= i <= v@.len(),
            s@ == lowered(v@.skip(from as int)).take(i - from),
        decreases v@.len() - i,
    {
        s.push(lower_char(v[i]));
        i += 1;
        assert(lowered(v@.skip(from as int)).take(i - from) == lowered(v@.skip(from as int)).take(
            i - 1 - from,
        ).push(lower(v@[i - 1])));
    }
    s
}

/// Whether `v` ends, but for the case of ASCII letters, in the lower-cased `tail`.
pub fn ends_like(v: &Vec<char>, tail: &Vec<char>) -> (r: bool)
    ensures
        r == tail@.is_suffix_of(lowered(v@)),
{
    let n = tail.len();
    if v.len() < n {
        return false;
    }
    let from = v.len() - n;
    let ghost end = lowered(v@).subrange(from as int, v@.len() as int);
    let mut i: usize = 0;
    while i < n
        invariant
            i <= n == tail@.len(),
            from + n == v.len(),
            end == lowered(v@).subrange(from as int, v@.len() as int),
            forall|j: int| 0 <= j < i ==> #[trigger] end[j] == tail@[j],
        decreases n - i,
    {
        assert(end[i as int] == lower(v@[from + i]));
        if lower_char(v[from + i]) != tail[i] {
            return false;
        }
        i += 1;
    }
    assert(tail@ =~= end);
    true
}

/// The position just after the last `c` in `v`, or 0 where there is none.
pub fn after_last(v: &Vec<char>, c: char) -> (p: usize)
    ensures
        p == last_of(v@, c) + 1,
        p <= v@.len(),
{
    let mut p: usize = v.len();
    assert(v@.take(p as int) == v@);
    while p > 0 && v[p - 1] != c
        invariant
            p <= v@.len(),
            last_of(v@, c) == last_of(v@.take(p as int), c),
        decreases p,
    {
        assert(v@.take(p as int).drop_last() == v@.take(p - 1));
        p -= 1;
    }
    p
}

/// Appends `parts` to `out`, with `sep` between neighbours.
pub fn push_joined(out: &mut String, parts: &Vec<&str>, sep: char)
    ensures
        final(out)@ == old(out)@ + joined(texts(parts@), sep),
{
    let ghost start = out@;
    let mut i: usize = 0;
    assert(start + joined(texts(parts@).take(0), sep) == start);
    while i < parts.len()
        invariant
            i <= parts@.len(),
            out@ == start + joined(texts(parts@).take(i as int), sep),
        decreases parts@.len() - i,
    {
        let ghost done = texts(parts@).take(i as int);
        let ghost more = texts(parts@).take(i + 1);
        assert(more.drop_last() == done);
        if i > 0 {
            out.push(sep);
        }
        out.append(parts[i]);
        i += 1;
        assert(out@ == start + joined(more, sep));
    }
    assert(texts(parts@).take(i as int) == texts(parts@));
}

/// The decimal digit for a number below ten.
pub open spec fn digit(n: nat) -> char {
    ('0' as u32 + n) as char
}

/// A number in decimal, without leading zeros.
pub open spec fn decimal(n: nat) -> Seq<char>
    decreases n,
{
    if n < 10 {
        seq![digit(n)]
    } else {
        decimal(n / 10).push(digit(n % 10))
    }
}

/// Appends a number in decimal.
pub fn push_decimal(out: &mut String, n: u64)
    ensures
        final(out)@ == old(out)@ + decimal(n as nat),
    decreases n,
{
    let ghost start = out@;
    if n < 10 {
        out.push((48 + n as u8) as char);
        assert(out@ =~= start + decimal(n as nat));
    } else {
        push_decimal(out, n / 10);
        out.push((48 + (n % 10) as u8) as char);
        assert(out@ =~= start + decimal(n as nat));
    }
}

/// A signed number in decimal.
pub open spec fn signed_decimal(n: int) -> Seq<char> {
    if n < 0 {
        seq!['-'] + decimal(-n as nat)
    } else {
        decimal(n as nat)
    }
}

/// Appends a signed number in decimal.
pub fn push_signed_decimal(out: &mut String, n: i64)
    ensures
        final(out)@ == old(out)@ + signed_decimal(n as int),
{
    let ghost start = out@;
    if n < 0 {
        out.push('-');
        push_decimal(out, (-(n + 1)) as u64 + 1);
        assert(out@ =~= start + signed_decimal(n as int));
    } else {
        push_decimal(out, n as u64);
    }
}

/// The text of a string, if there is one.
pub open spec fn maybe(s: Option<String>) -> Option<Seq<char>> {
    match s {
        Some(t) => Some(t@),
        None => None,
    }
}

/// A character with the Unicode property `White_Space`.
pub open spec fn is_white(c: char) -> bool {
    ||| '\u{9}' <= c <= '\u{d}'
    ||| c == ' '
    ||| c == '\u{85}'
    ||| c == '\u{a0}'
    ||| c == '\u{1680}'
    ||| '\u{2000}' <= c <= '\u{200a}'
    ||| c == '\u{2028}'
    ||| c == '\u{2029}'
    ||| c == '\u{202f}'
    ||| c == '\u{205f}'
    ||| c == '\u{3000}'
}

/// `std`'s `char::is_whitespace`: whether the character has the Unicode property
/// `White_Space`.
pub assume_specification[ char::is_whitespace ](c: char) -> (r: bool)
    ensures
        r == is_white(c),
;

/// Whether a line holds nothing but white space.
pub fn is_blank(line: &str) -> (r: bool)
    ensures
        r == (forall|i: int| 0 <= i < line@.len() ==> is_white(#[trigger] line@[i])),
{
    for c in it: line.chars()
        invariant
            it.seq() == line@,
            forall|i: int| 0 <= i < it.index() ==> is_white(#[trigger] line@[i]),
    {
        if !c.is_whitespace() {
            assert(!is_white(line@[it.index() as int]));
            return false;
        }
    }
    true
}

} // verus!
