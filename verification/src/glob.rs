//! Glob patterns: what is done to one before it is compiled, and the matcher of the
//! `globset` crate.

use globset::{GlobBuilder, GlobSet};
use vstd::prelude::*;

use crate::text::{chars_of, lower_char};
#[allow(unused_imports)]
use crate::text::{last_of, lowered, replaced};

verus! {

/// Where in a pattern a character stands: outside any character class, just after
/// the `[` that opens one, just after the `!` or `^` that negates one, or further
/// inside.
#[derive(Clone, Copy, PartialEq, Eq, Structural)]
pub enum Place {
    Outside,
    Opened,
    Negated,
    Inside,
}

/// The place of the character after `c`, if `c` stands at `place`. The first
/// character of a class belongs to it even if it is `]`.
pub open spec fn moved(place: Place, c: char) -> Place {
    match place {
        Place::Outside => if c == '[' {
            Place::Opened
        } else {
            Place::Outside
        },
        Place::Opened => if c == '!' || c == '^' {
            Place::Negated
        } else {
            Place::Inside
        },
        Place::Negated => Place::Inside,
        Place::Inside => if c == ']' {
            Place::Outside
        } else {
            Place::Inside
        },
    }
}

/// The place of what follows `pattern`.
pub open spec fn place_after(pattern: Seq<char>) -> Place
    decreases pattern.len(),
{
    if pattern.len() == 0 {
        Place::Outside
    } else {
        moved(place_after(pattern.drop_last()), pattern.last())
    }
}

/// The character at `i` is a backslash that is no member of a class.
pub open spec fn separates(pattern: Seq<char>, i: int) -> bool {
    pattern[i] == '\\' && place_after(pattern.take(i)) == Place::Outside
}

/// No backslash stands outside a class.
pub open spec fn slashes_only(pattern: Seq<char>) -> bool {
    forall|i: int| 0 <= i < pattern.len() ==> !#[trigger] separates(pattern, i)
}

/// `pattern` with `/` for each backslash that separates path components.
pub open spec fn with_slashes(pattern: Seq<char>) -> Seq<char> {
    Seq::new(
        pattern.len(),
        |i: int|
            if separates(pattern, i) {
                '/'
            } else {
                pattern[i]
            },
    )
}

/// A character that stands for itself in a pattern, and is no separator.
pub open spec fn is_literal(c: char) -> bool {
    !(c == '*' || c == '?' || c == '[' || c == ']' || c == '{' || c == '}' || c == ',' || c == '\\'
        || c == '/')
}

/// The literal characters that `pattern` ends with.
pub open spec fn tail_of(pattern: Seq<char>) -> Seq<char>
    decreases pattern.len(),
{
    if pattern.len() > 0 && is_literal(pattern.last()) {
        tail_of(pattern.drop_last()).push(pattern.last())
    } else {
        Seq::empty()
    }
}

/// The lowercased extension that `pattern` fixes: what follows the last dot of the
/// literal characters that it ends with, where something follows it.
pub open spec fn fixed_ext(pattern: Seq<char>) -> Option<Seq<char>> {
    let tail = tail_of(pattern);
    let dot = last_of(tail, '.');
    if dot < 0 || dot + 1 >= tail.len() {
        None
    } else {
        Some(lowered(tail.skip(dot + 1)))
    }
}

/// How deep the alternatives of a pattern may be nested.
pub const MAX_NESTING: usize = 250;

/// How many alternatives are open after `pattern`. Braces in a class open and close none.
pub open spec fn depth_after(pattern: Seq<char>) -> nat
    decreases pattern.len(),
{
    if pattern.len() == 0 {
        0
    } else {
        let before = depth_after(pattern.drop_last());
        let c = pattern.last();
        if place_after(pattern.drop_last()) != Place::Outside {
            before
        } else if c == '{' {
            before + 1
        } else if c == '}' && before > 0 {
            (before - 1) as nat
        } else {
            before
        }
    }
}

/// Alternatives are nowhere nested deeper than they may be.
pub open spec fn is_shallow(pattern: Seq<char>) -> bool {
    forall|i: int|
        0 <= i <= pattern.len() ==> depth_after(#[trigger] pattern.take(i)) <= MAX_NESTING
}

/// The character at `i` is a `-` that makes its neighbours the bounds of a range.
pub open spec fn makes_range(pattern: Seq<char>, i: int) -> bool {
    &&& 0 < i < pattern.len() - 1
    &&& pattern[i] == '-'
    &&& place_after(pattern.take(i)) == Place::Inside
    &&& pattern[i + 1] != ']'
}

/// Two letters of one case.
pub open spec fn same_case(a: char, b: char) -> bool {
    ('a' <= a <= 'z' && 'a' <= b <= 'z') || ('A' <= a <= 'Z' && 'A' <= b <= 'Z')
}

/// `other` is `pattern` with some letters in the other case. The bounds of a range are
/// spelt alike, or they are letters of one case in either spelling: `[a-f]` is the range
/// `[A-F]`, but `[Z-a]` is a range, and `[z-a]` is none.
pub open spec fn respelt(pattern: Seq<char>, other: Seq<char>) -> bool {
    &&& lowered(pattern) == lowered(other)
    &&& forall|i: int| #[trigger]
        makes_range(pattern, i) ==> {
            ||| pattern[i - 1] == other[i - 1] && pattern[i + 1] == other[i + 1]
            ||| same_case(pattern[i - 1], pattern[i + 1]) && same_case(other[i - 1], other[i + 1])
        }
}

/// `globset`'s set of compiled globs.
#[verifier::external_type_specification]
#[verifier::external_body]
pub struct ExGlobSet(globset::GlobSet);

/// The globs that a set holds: for each, its pattern, whether letters match in
/// either case, and whether only a `/` of the pattern matches a `/`.
pub uninterp spec fn globs_in(set: GlobSet) -> Seq<(Seq<char>, bool, bool)>;

/// The message with which compiling a pattern under these two options fails, if it
/// fails.
pub uninterp spec fn glob_error(
    pattern: Seq<char>,
    case_insensitive: bool,
    literal_separator: bool,
) -> Option<Seq<char>>;

/// Whether the glob matches the path.
pub uninterp spec fn glob_accepts(
    pattern: Seq<char>,
    case_insensitive: bool,
    literal_separator: bool,
    path: Seq<char>,
) -> bool;

/// Whatever the glob matches ends in the literal characters that its pattern ends with,
/// but for the case of letters.
pub open spec fn has_fixed_end(
    pattern: Seq<char>,
    case_insensitive: bool,
    literal_separator: bool,
) -> bool {
    forall|path: Seq<char>| #[trigger]
        glob_accepts(pattern, case_insensitive, literal_separator, path) ==> lowered(
            tail_of(pattern),
        ).is_suffix_of(lowered(path))
}

/// Every other spelling of the pattern compiles if this one does, and not if it does
/// not.
pub open spec fn compiles_in_any_case(
    pattern: Seq<char>,
    literal_separator: bool,
    compiles: bool,
) -> bool {
    forall|other: Seq<char>| #[trigger]
        respelt(pattern, other) ==> (compiles <==> glob_error(other, true, literal_separator)
            is None)
}

/// Every other spelling of the pattern matches the same paths.
pub open spec fn matches_in_any_case(pattern: Seq<char>, literal_separator: bool) -> bool {
    forall|other: Seq<char>, path: Seq<char>|
        respelt(pattern, other) ==> #[trigger] glob_accepts(other, true, literal_separator, path)
            == glob_accepts(pattern, true, literal_separator, path)
}

/// `globset`'s `GlobBuilder::build` under the two options given, and
/// `GlobSet::new` on the one glob it yields. The set holds that glob; where either
/// call fails, its message is handed on. Which patterns compile, what the message is
/// and what a glob matches have names and are not said, but for this. A glob is matched
/// from end to end, so what it matches ends in the literal characters that the pattern
/// ends with; a `[` or `{` before them that they would belong to is refused as not
/// closed. If letters match in either case, it does not matter in which case a pattern
/// is written, but for ranges that are not between letters of one case. A backslash
/// outside a class is not admitted: what it means differs between platforms. Nor are
/// alternatives nested deeper than `MAX_NESTING`: the calls recurse into them, and may
/// run out of stack.
#[verifier::external_body]
pub(crate) fn compile_glob(
    pattern: &str,
    case_insensitive: bool,
    literal_separator: bool,
) -> (r: Result<GlobSet, String>)
    requires
        slashes_only(pattern@),
        is_shallow(pattern@),
    ensures
        r is Ok <==> glob_error(pattern@, case_insensitive, literal_separator) is None,
        r matches Ok(set) ==> globs_in(set) == seq![(pattern@, case_insensitive, literal_separator)],
        r matches Err(message) ==> glob_error(pattern@, case_insensitive, literal_separator)
            == Some(message@),
        r is Ok ==> has_fixed_end(pattern@, case_insensitive, literal_separator),
        case_insensitive ==> compiles_in_any_case(pattern@, literal_separator, r is Ok),
        r is Ok && case_insensitive ==> matches_in_any_case(pattern@, literal_separator),
{
    let glob = GlobBuilder::new(pattern)
        .case_insensitive(case_insensitive)
        .literal_separator(literal_separator)
        .build()
        .map_err(|e| e.to_string())?;
    GlobSet::new([glob]).map_err(|e| e.to_string())
}

/// Every glob of the list matches letters in either case.
pub open spec fn all_case_insensitive(globs: Seq<(Seq<char>, bool, bool)>) -> bool {
    forall|i: int| 0 <= i < globs.len() ==> (#[trigger] globs[i]).1
}

/// Some glob of the list matches the path.
pub open spec fn some_accepts(globs: Seq<(Seq<char>, bool, bool)>, path: Seq<char>) -> bool {
    exists|i: int|
        0 <= i < globs.len() && glob_accepts(
            (#[trigger] globs[i]).0,
            globs[i].1,
            globs[i].2,
            path,
        )
}

/// `globset`'s `GlobSet::is_match`: whether some glob of the set matches the path.
/// Which paths a glob matches has a name and is not said, but for this: globs that
/// match letters in either case match all spellings of a path, or none, where
/// spellings differ in the case of ASCII letters. A path with a backslash is not
/// admitted: some platforms take it for a separator.
#[verifier::external_body]
pub(crate) fn matches_glob(set: &GlobSet, path: &str) -> (r: bool)
    requires
        !path@.contains('\\'),
    ensures
        r == (exists|i: int|
            0 <= i < globs_in(*set).len() && glob_accepts(
                (#[trigger] globs_in(*set)[i]).0,
                globs_in(*set)[i].1,
                globs_in(*set)[i].2,
                path@,
            )),
        forall|other: Seq<char>|
            all_case_insensitive(globs_in(*set)) && lowered(other) == lowered(path@) ==> r
                == #[trigger] some_accepts(globs_in(*set), other),
{
    set.is_match(path)
}

/// Putting slashes moves no character into a class or out of one.
pub proof fn lemma_place_with_slashes(pattern: Seq<char>, i: int)
    requires
        0 <= i <= pattern.len(),
    ensures
        place_after(with_slashes(pattern).take(i)) == place_after(pattern.take(i)),
    decreases i,
{
    if i > 0 {
        lemma_place_with_slashes(pattern, i - 1);
        assert(with_slashes(pattern).take(i).drop_last() == with_slashes(pattern).take(i - 1));
        assert(pattern.take(i).drop_last() == pattern.take(i - 1));
    }
}

/// Putting slashes leaves no backslash outside a class.
pub proof fn lemma_with_slashes(pattern: Seq<char>)
    ensures
        slashes_only(with_slashes(pattern)),
{
    assert forall|i: int| 0 <= i < pattern.len() implies !#[trigger] separates(
        with_slashes(pattern),
        i,
    ) by {
        lemma_place_with_slashes(pattern, i);
    }
}

fn move_on(place: Place, c: char) -> (next: Place)
    ensures
        next == moved(place, c),
{
    match place {
        Place::Outside => if c == '[' {
            Place::Opened
        } else {
            Place::Outside
        },
        Place::Opened => if c == '!' || c == '^' {
            Place::Negated
        } else {
            Place::Inside
        },
        Place::Negated => Place::Inside,
        Place::Inside => if c == ']' {
            Place::Outside
        } else {
            Place::Inside
        },
    }
}

/// Whether alternatives of a pattern are nested deeper than they may be.
pub fn nests_too_deep(pattern: &str) -> (r: bool)
    ensures
        r == !is_shallow(pattern@),
{
    let mut place = Place::Outside;
    let mut depth: usize = 0;
    for c in it: pattern.chars()
        invariant
            it.seq() == pattern@,
            place == place_after(pattern@.take(it.index() as int)),
            depth == depth_after(pattern@.take(it.index() as int)),
            depth <= MAX_NESTING,
            forall|i: int|
                0 <= i <= it.index() ==> depth_after(#[trigger] pattern@.take(i)) <= MAX_NESTING,
    {
        let ghost n = it.index() as int;
        if place == Place::Outside {
            if c == '{' {
                depth += 1;
            } else if c == '}' && depth > 0 {
                depth -= 1;
            }
        }
        place = move_on(place, c);
        assert(pattern@.take(n + 1).drop_last() =~= pattern@.take(n));
        if depth > MAX_NESTING {
            assert(depth_after(pattern@.take(n + 1)) > MAX_NESTING);
            return true;
        }
    }
    false
}

/// Puts `/` for each backslash of a pattern that separates path components.
pub fn put_slashes(pattern: &str) -> (s: String)
    ensures
        s@ == with_slashes(pattern@),
{
    let chars = chars_of(pattern);
    let mut s = String::new();
    let mut place = Place::Outside;
    let mut i: usize = 0;
    while i < chars.len()
        invariant
            i <= chars@.len(),
            chars@ == pattern@,
            place == place_after(pattern@.take(i as int)),
            s@ == with_slashes(pattern@).take(i as int),
        decreases chars@.len() - i,
    {
        let c = chars[i];
        if c == '\\' && place == Place::Outside {
            s.push('/');
        } else {
            s.push(c);
        }
        place = move_on(place, c);
        i += 1;
        assert(pattern@.take(i as int).drop_last() == pattern@.take(i - 1));
        assert(with_slashes(pattern@).take(i as int) == with_slashes(pattern@).take(i - 1).push(
            with_slashes(pattern@)[i - 1],
        ));
    }
    assert(s@ =~= with_slashes(pattern@));
    s
}

/// Replaces every `from` by `to`.
pub fn replace_char(s: &str, from: char, to: char) -> (r: Vec<char>)
    ensures
        r@ == replaced(s@, from, to),
{
    let mut r: Vec<char> = Vec::new();
    for c in it: s.chars()
        invariant
            it.seq() == s@,
            r@ == replaced(s@, from, to).take(it.index() as int),
    {
        if c == from {
            r.push(to);
        } else {
            r.push(c);
        }
        assert(replaced(s@, from, to).take(it.index() + 1) == replaced(s@, from, to).take(
            it.index() as int,
        ).push(replaced(s@, from, to)[it.index() as int]));
    }
    assert(r@ =~= replaced(s@, from, to));
    r
}

/// The literal characters that a pattern ends with, lowercased.
pub fn lower_tail(pattern: &str) -> (tail: Vec<char>)
    ensures
        tail@ == lowered(tail_of(pattern@)),
{
    let chars = chars_of(pattern);
    let mut from: usize = chars.len();
    assert(pattern@.take(from as int) == pattern@);
    assert(tail_of(pattern@) + pattern@.skip(from as int) =~= tail_of(pattern@));
    while from > 0 && literal(chars[from - 1])
        invariant
            from <= chars@.len(),
            chars@ == pattern@,
            tail_of(pattern@) == tail_of(pattern@.take(from as int)) + pattern@.skip(from as int),
        decreases from,
    {
        let ghost head = pattern@.take(from as int);
        assert(head.drop_last() == pattern@.take(from - 1));
        assert(pattern@.skip(from - 1) =~= seq![head.last()] + pattern@.skip(from as int));
        assert(tail_of(head.drop_last()).push(head.last()) + pattern@.skip(from as int) =~= tail_of(
            head.drop_last(),
        ) + pattern@.skip(from - 1));
        from -= 1;
    }
    assert(tail_of(pattern@) =~= pattern@.skip(from as int));
    let mut tail: Vec<char> = Vec::new();
    let mut i: usize = from;
    while i < chars.len()
        invariant
            from <= i <= chars@.len(),
            chars@ == pattern@,
            tail@ == lowered(pattern@.skip(from as int)).take(i - from),
        decreases chars@.len() - i,
    {
        tail.push(lower_char(chars[i]));
        i += 1;
        assert(tail@ =~= lowered(pattern@.skip(from as int)).take(i - from));
    }
    assert(tail@ =~= lowered(pattern@.skip(from as int)));
    tail
}

/// Whether a character stands for itself in a pattern, and is no separator.
fn literal(c: char) -> (r: bool)
    ensures
        r == is_literal(c),
{
    !(c == '*' || c == '?' || c == '[' || c == ']' || c == '{' || c == '}' || c == ',' || c == '\\'
        || c == '/')
}

/// What the last characters of a pattern are.
pub proof fn lemma_tail(pattern: Seq<char>)
    ensures
        tail_of(pattern).len() <= pattern.len(),
        tail_of(pattern) == pattern.skip(pattern.len() - tail_of(pattern).len()),
        forall|i: int|
            0 <= i < tail_of(pattern).len() ==> is_literal(#[trigger] tail_of(pattern)[i]),
    decreases pattern.len(),
{
    if pattern.len() > 0 && is_literal(pattern.last()) {
        let before = pattern.drop_last();
        lemma_tail(before);
        assert(tail_of(pattern) =~= pattern.skip(pattern.len() - tail_of(pattern).len()));
    } else {
        assert(tail_of(pattern) =~= pattern.skip(pattern.len() as int));
    }
}

} // verus!
