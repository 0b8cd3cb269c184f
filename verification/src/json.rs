//! JSON texts: what is read of them, and how strings are written in them.

use vstd::prelude::*;

#[allow(unused_imports)]
use crate::text::{maybe, one_line};

verus! {

/// The message with which `serde_json` refuses a text, if it does.
pub uninterp spec fn json_error(text: Seq<char>) -> Option<Seq<char>>;

/// The compact JSON text of the member `key`, where `text` is that of an object that
/// has it.
pub uninterp spec fn json_member(text: Seq<char>, key: Seq<char>) -> Option<Seq<char>>;

/// The string that `text` is the JSON of, if it is that of a string.
pub uninterp spec fn json_str(text: Seq<char>) -> Option<Seq<char>>;

/// The number that `text` is the JSON of, if it is that of a whole number in the
/// range of `u64`.
pub uninterp spec fn json_u64(text: Seq<char>) -> Option<u64>;

/// The truth value that `text` is the JSON of, if it is that of one.
pub uninterp spec fn json_bool(text: Seq<char>) -> Option<bool>;

/// The lower-case hexadecimal digit for a number below sixteen.
pub open spec fn hex_digit(n: int) -> char {
    if n < 10 {
        ('0' as u32 + n) as char
    } else {
        ('a' as u32 + (n - 10)) as char
    }
}

/// How a character is written in a JSON string: quotes, backslashes and control
/// characters are escaped.
pub open spec fn escaped(c: char) -> Seq<char> {
    if c == '"' {
        seq!['\\', '"']
    } else if c == '\\' {
        seq!['\\', '\\']
    } else if c == '\u{8}' {
        seq!['\\', 'b']
    } else if c == '\t' {
        seq!['\\', 't']
    } else if c == '\n' {
        seq!['\\', 'n']
    } else if c == '\u{c}' {
        seq!['\\', 'f']
    } else if c == '\r' {
        seq!['\\', 'r']
    } else if ' ' > c {
        seq!['\\', 'u', '0', '0', hex_digit(c as int / 16), hex_digit(c as int % 16)]
    } else {
        seq![c]
    }
}

/// How the characters of `s` are written in a JSON string.
pub open spec fn all_escaped(s: Seq<char>) -> Seq<char>
    decreases s.len(),
{
    if s.len() == 0 {
        Seq::empty()
    } else {
        all_escaped(s.drop_last()) + escaped(s.last())
    }
}

/// `s` as a JSON string.
pub open spec fn quoted(s: Seq<char>) -> Seq<char> {
    seq!['"'] + all_escaped(s) + seq!['"']
}

/// `serde_json::from_str` into a `Value`, of which only the error is kept: its
/// `to_string`. The error is named, as a function of the text.
#[verifier::external_body]
pub(crate) fn check(text: &str) -> (error: Option<String>)
    ensures
        maybe(error) == json_error(text@),
{
    match serde_json::from_str::<serde_json::Value>(text) {
        Ok(_) => None,
        Err(e) => Some(e.to_string()),
    }
}

/// `serde_json::Value::get` with a key, on the `Value` that `from_str` makes of the
/// text. The compact JSON of the member (`Value::to_string`) is named, as a function
/// of the text and the key; there is none if the text is refused, is not that of an
/// object, or has no such member. Compact JSON puts nothing between its parts, and
/// escapes an end of a line in a string, so that it holds none.
#[verifier::external_body]
pub(crate) fn member(text: &str, key: &str) -> (value: Option<String>)
    ensures
        maybe(value) == json_member(text@, key@),
        value matches Some(inner) ==> one_line(inner@),
{
    match serde_json::from_str::<serde_json::Value>(text) {
        Ok(value) => value.get(key).map(|member| member.to_string()),
        Err(_) => None,
    }
}

/// `serde_json::Value::as_str`, on the `Value` that `from_str` makes of the text. The
/// result is named, as a function of the text; there is none if the text is refused.
#[verifier::external_body]
pub(crate) fn string_in(text: &str) -> (value: Option<String>)
    ensures
        maybe(value) == json_str(text@),
{
    match serde_json::from_str::<serde_json::Value>(text) {
        Ok(value) => value.as_str().map(|s| s.to_string()),
        Err(_) => None,
    }
}

/// `serde_json::Value::as_u64`, on the `Value` that `from_str` makes of the text. The
/// result is named, as a function of the text; there is none if the text is refused.
#[verifier::external_body]
pub(crate) fn number_in(text: &str) -> (value: Option<u64>)
    ensures
        value == json_u64(text@),
{
    match serde_json::from_str::<serde_json::Value>(text) {
        Ok(value) => value.as_u64(),
        Err(_) => None,
    }
}

/// `serde_json::Value::as_bool`, on the `Value` that `from_str` makes of the text. The
/// result is named, as a function of the text; there is none if the text is refused.
#[verifier::external_body]
pub(crate) fn truth_in(text: &str) -> (value: Option<bool>)
    ensures
        value == json_bool(text@),
{
    match serde_json::from_str::<serde_json::Value>(text) {
        Ok(value) => value.as_bool(),
        Err(_) => None,
    }
}

/// `serde_json::to_string` of a string: the string between quotes, each character as
/// it is or, if it is a quote, a backslash or a control character, escaped. Writing
/// a string cannot fail.
#[verifier::external_body]
pub(crate) fn quote(s: &str) -> (text: String)
    ensures
        text@ == quoted(s@),
{
    match serde_json::to_string(s) {
        Ok(text) => text,
        Err(_) => String::new(),
    }
}

/// The string that the member `key` of an object is, if it is one.
pub fn string_member(text: &str, key: &str) -> (value: Option<String>)
    ensures
        maybe(value) == str_member(text@, key@),
{
    match member(text, key) {
        Some(inner) => string_in(inner.as_str()),
        None => None,
    }
}

/// The string that the member `key` of an object is, if it is one.
pub open spec fn str_member(text: Seq<char>, key: Seq<char>) -> Option<Seq<char>> {
    match json_member(text, key) {
        Some(inner) => json_str(inner),
        None => None,
    }
}

/// The number that the member `key` of an object is, if it is one.
pub fn number_member(text: &str, key: &str) -> (value: Option<u64>)
    ensures
        value == u64_member(text@, key@),
{
    match member(text, key) {
        Some(inner) => number_in(inner.as_str()),
        None => None,
    }
}

/// The number that the member `key` of an object is, if it is one.
pub open spec fn u64_member(text: Seq<char>, key: Seq<char>) -> Option<u64> {
    match json_member(text, key) {
        Some(inner) => json_u64(inner),
        None => None,
    }
}

/// The truth value that the member `key` of an object is, if it is one.
pub fn truth_member(text: &str, key: &str) -> (value: Option<bool>)
    ensures
        value == bool_member(text@, key@),
{
    match member(text, key) {
        Some(inner) => truth_in(inner.as_str()),
        None => None,
    }
}

/// The truth value that the member `key` of an object is, if it is one.
pub open spec fn bool_member(text: Seq<char>, key: Seq<char>) -> Option<bool> {
    match json_member(text, key) {
        Some(inner) => json_bool(inner),
        None => None,
    }
}

} // verus!
