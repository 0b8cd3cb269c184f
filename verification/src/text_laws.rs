//! What the operations on strings do: letters change their case and nothing else
//! does, joined parts can be told apart again, and numbers are written so that they
//! can be read back.

use vstd::prelude::*;

use crate::text::{
    decimal, joined, last_of, lemma_last_of, lower, lowered, replaced, signed_decimal, upper,
};
use crate::utf16::utf16_lossy;

verus! {

/// The case of a letter is changed by moving 32 code points, and only the 26 letters of
/// either case have one.
pub proof fn law_case_of_letters(c: char)
    ensures
        lower(c) != c <==> 'A' <= c <= 'Z',
        upper(c) != c <==> 'a' <= c <= 'z',
        'A' <= c <= 'Z' ==> lower(c) as int == c as int + 32,
        'a' <= c <= 'z' ==> upper(c) as int == c as int - 32,
        lower(upper(c)) == lower(c),
        upper(lower(c)) == upper(c),
{
}

/// Lowercasing a text keeps its length and treats each character by itself: texts one
/// behind the other are lowercased one behind the other.
pub proof fn law_lowercasing_is_by_character(a: Seq<char>, b: Seq<char>, c: char)
    ensures
        lowered(a).len() == a.len(),
        lowered(a + b) == lowered(a) + lowered(b),
        lowered(seq![c]) == seq![lower(c)],
{
    assert(lowered(a + b) =~= lowered(a) + lowered(b));
    assert(lowered(seq![c]) =~= seq![lower(c)]);
}

/// Replacing a character keeps the length and every other character, and leaves none of
/// those replaced, unless they are replaced by themselves.
pub proof fn law_replacing_touches_nothing_else(s: Seq<char>, from: char, to: char)
    ensures
        replaced(s, from, to).len() == s.len(),
        forall|i: int|
            0 <= i < s.len() && s[i] != from ==> #[trigger] replaced(s, from, to)[i] == s[i],
        forall|i: int|
            0 <= i < s.len() && s[i] == from ==> #[trigger] replaced(s, from, to)[i] == to,
{
}

/// The last place of a character is where it stands and does not stand again.
pub proof fn law_last_place(a: Seq<char>, c: char, b: Seq<char>)
    requires
        !b.contains(c),
    ensures
        last_of(a.push(c) + b, c) == a.len(),
        last_of(b, c) == -1,
{
    let s = a.push(c) + b;
    lemma_last_of(s, c);
    lemma_last_of(b, c);
    if last_of(b, c) >= 0 {
        assert(b.contains(b[last_of(b, c)]));
    }
    assert(s[a.len() as int] == c);
    if last_of(s, c) > a.len() {
        let i = last_of(s, c) - a.len() - 1;
        assert(s[last_of(s, c)] == b[i]);
        assert(b.contains(b[i]));
    }
}

/// Parts are joined in their order, each whole, with one separator between two neighbours
/// and none before the first or behind the last.
pub proof fn law_joining(a: Seq<Seq<char>>, b: Seq<Seq<char>>, part: Seq<char>, sep: char)
    ensures
        joined(Seq::empty(), sep) == Seq::<char>::empty(),
        joined(seq![part], sep) == part,
        a.len() > 0 && b.len() > 0 ==> joined(a + b, sep) == joined(a, sep) + seq![sep] + joined(
            b,
            sep,
        ),
    decreases b.len(),
{
    if a.len() > 0 && b.len() > 0 {
        let all = a + b;
        assert(all.drop_last() =~= a + b.drop_last());
        if b.len() == 1 {
            assert(a + b.drop_last() =~= a);
            assert(joined(all, sep) =~= joined(a, sep) + seq![sep] + joined(b, sep));
        } else {
            law_joining(a, b.drop_last(), part, sep);
            assert(joined(all, sep) =~= joined(a, sep) + seq![sep] + joined(b, sep));
        }
    }
}

/// The number that a row of decimal digits stands for.
pub open spec fn number_of(digits: Seq<char>) -> int
    decreases digits.len(),
{
    if digits.len() == 0 {
        0
    } else {
        10 * number_of(digits.drop_last()) + (digits.last() as int - '0' as int)
    }
}

/// A number in decimal is a row of digits that stands for it, and starts with a zero only
/// if that is all of it.
pub proof fn law_decimal_reads_back(n: nat)
    ensures
        number_of(decimal(n)) == n,
        decimal(n).len() > 0,
        forall|i: int| 0 <= i < decimal(n).len() ==> '0' <= #[trigger] decimal(n)[i] <= '9',
        decimal(n)[0] == '0' ==> n == 0 && decimal(n).len() == 1,
    decreases n,
{
    reveal_with_fuel(number_of, 2);
    if n >= 10 {
        law_decimal_reads_back(n / 10);
        assert(decimal(n).drop_last() =~= decimal(n / 10));
        assert(decimal(n)[0] == decimal(n / 10)[0]);
    } else {
        assert(decimal(n).drop_last() =~= Seq::empty());
    }
}

/// A number below zero is its amount behind a minus sign; any other has no sign.
pub proof fn law_signed_decimal_reads_back(n: int)
    ensures
        n < 0 ==> signed_decimal(n)[0] == '-' && number_of(signed_decimal(n).skip(1)) == -n,
        n >= 0 ==> number_of(signed_decimal(n)) == n && signed_decimal(n)[0] != '-',
{
    if n < 0 {
        law_decimal_reads_back((-n) as nat);
        assert(signed_decimal(n).skip(1) =~= decimal((-n) as nat));
    } else {
        law_decimal_reads_back(n as nat);
        assert('0' <= decimal(n as nat)[0]);
    }
}

/// A character in UTF-16: as one unit, or as a pair of surrogates that carry ten bits
/// each.
pub open spec fn units_for(c: char) -> Seq<u16> {
    let n = c as int;
    if n < 0x1_0000 {
        seq![n as u16]
    } else {
        seq![
            (0xD800 + (n - 0x1_0000) / 0x400) as u16,
            (0xDC00 + (n - 0x1_0000) % 0x400) as u16,
        ]
    }
}

/// A text in UTF-16.
pub open spec fn all_units_for(s: Seq<char>) -> Seq<u16>
    decreases s.len(),
{
    if s.len() == 0 {
        Seq::empty()
    } else {
        units_for(s[0]) + all_units_for(s.skip(1))
    }
}

/// One character that was encoded is decoded, whatever follows it.
pub proof fn law_decoding_goes_by_character(c: char, rest: Seq<u16>)
    ensures
        utf16_lossy(units_for(c) + rest) == seq![c] + utf16_lossy(rest),
{
    let units = units_for(c) + rest;
    let n = c as int;
    if n < 0x1_0000 {
        assert(units.skip(1) =~= rest);
        assert(units[0] == n);
        assert(units[0] as char == c);
    } else {
        assert(units.skip(2) =~= rest);
        let high = units[0] as int;
        let low = units[1] as int;
        assert(high == 0xD800 + (n - 0x1_0000) / 0x400);
        assert(low == 0xDC00 + (n - 0x1_0000) % 0x400);
    }
}

/// Decoding undoes encoding: a text in UTF-16 is read as that text.
pub proof fn law_decoding_undoes_encoding(s: Seq<char>)
    ensures
        utf16_lossy(all_units_for(s)) == s,
    decreases s.len(),
{
    if s.len() == 0 {
        assert(utf16_lossy(all_units_for(s)) =~= s);
    } else {
        law_decoding_undoes_encoding(s.skip(1));
        law_decoding_goes_by_character(s[0], all_units_for(s.skip(1)));
        assert(seq![s[0]] + s.skip(1) =~= s);
    }
}

/// Half of a pair that has no other half is read as U+FFFD, and takes nothing else with
/// it.
pub proof fn law_lone_surrogates_are_replaced(unit: u16, rest: Seq<u16>)
    requires
        0xD800 <= unit <= 0xDFFF,
        unit >= 0xDC00 || rest.len() == 0 || !(0xDC00 <= rest[0] <= 0xDFFF),
    ensures
        utf16_lossy(seq![unit] + rest) == seq!['\u{FFFD}'] + utf16_lossy(rest),
        utf16_lossy(Seq::empty()) == Seq::<char>::empty(),
{
    let units = seq![unit] + rest;
    assert(units.skip(1) =~= rest);
    if rest.len() > 0 {
        assert(units[1] == rest[0]);
    }
}

} // verus!
