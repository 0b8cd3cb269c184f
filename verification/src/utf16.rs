//! UTF-16 names, as NTFS stores them, turned into Rust strings.

use vstd::prelude::*;

verus! {

/// The first half of a surrogate pair.
pub open spec fn is_high(unit: u16) -> bool {
    0xD800 <= unit < 0xDC00
}

/// The second half of a surrogate pair.
pub open spec fn is_low(unit: u16) -> bool {
    0xDC00 <= unit < 0xE000
}

/// The character that a surrogate pair stands for.
pub open spec fn pair_char(high: u16, low: u16) -> char {
    (0x10000 + (high - 0xD800) * 0x400 + (low - 0xDC00)) as char
}

/// The character that a unit stands for by itself: U+FFFD if it is half of a
/// pair.
pub open spec fn lone_char(unit: u16) -> char {
    if is_high(unit) || is_low(unit) {
        '\u{FFFD}'
    } else {
        unit as char
    }
}

/// The text that `units` encodes, with U+FFFD for each unpaired surrogate.
pub open spec fn utf16_lossy(units: Seq<u16>) -> Seq<char>
    decreases units.len(),
{
    if units.len() == 0 {
        Seq::empty()
    } else if units.len() >= 2 && is_high(units[0]) && is_low(units[1]) {
        seq![pair_char(units[0], units[1])] + utf16_lossy(units.skip(2))
    } else {
        seq![lone_char(units[0])] + utf16_lossy(units.skip(1))
    }
}

/// `std`'s `char::from_u32`: the character with that scalar value, or `None`
/// where the number is a surrogate or above U+10FFFF.
pub assume_specification[ char::from_u32 ](i: u32) -> (r: Option<char>)
    ensures
        r == (if i < 0xD800 || 0xE000 <= i < 0x110000 {
            Some(i as char)
        } else {
            None
        }),
;

/// Decodes UTF-16, replacing what is not valid by U+FFFD.
pub fn decode_lossy(units: &Vec<u16>) -> (s: String)
    ensures
        s@ == utf16_lossy(units@),
{
    let mut s = String::new();
    let mut i: usize = 0;
    assert(units@.skip(0) == units@);
    while i < units.len()
        invariant
            0 <= i <= units@.len(),
            s@ + utf16_lossy(units@.skip(i as int)) == utf16_lossy(units@),
        decreases units@.len() - i,
    {
        let unit = units[i];
        let ghost rest = units@.skip(i as int);
        let ghost before = s@;
        let high: bool = 0xD800 <= unit && unit < 0xDC00;
        if high && i + 1 < units.len() && 0xDC00 <= units[i + 1] && units[i + 1] < 0xE000 {
            let low = units[i + 1];
            let code: u32 = 0x10000 + (unit as u32 - 0xD800) * 0x400 + (low as u32 - 0xDC00);
            if let Some(c) = char::from_u32(code) {
                s.push(c);
            }
            assert(rest.skip(2) == units@.skip(i + 2));
            assert(s@ == before.push(pair_char(rest[0], rest[1])));
            assert(s@ + utf16_lossy(rest.skip(2)) == before + utf16_lossy(rest));
            i += 2;
        } else {
            if 0xD800 <= unit && unit < 0xE000 {
                s.push('\u{FFFD}');
            } else if let Some(c) = char::from_u32(unit as u32) {
                s.push(c);
            }
            assert(s@ == before.push(lone_char(rest[0])));
            assert(rest.skip(1) == units@.skip(i + 1));
            assert(s@ + utf16_lossy(rest.skip(1)) == before + utf16_lossy(rest));
            i += 1;
        }
    }
    assert(units@.skip(i as int).len() == 0);
    assert(s@ + utf16_lossy(units@.skip(i as int)) == s@);
    s
}

} // verus!
