//! The rules of a `.gitignore` file, compiled by the `ignore` crate, and what they
//! leave out of a search.

use ignore::gitignore::{Gitignore, GitignoreBuilder};
use ignore::Match;
use vstd::prelude::*;

use crate::glob::MAX_NESTING;
use crate::text::{after_last, chars_of, is_text, string_of};
#[allow(unused_imports)]
use crate::text::last_of;

verus! {

/// The rule on directories named `.git` that stands behind all others.
pub const GIT_DIR_RULE: &'static str = ".git/";

/// `line` without byte order marks at its start.
pub open spec fn unmarked(line: Seq<char>) -> Seq<char>
    decreases line.len(),
{
    if line.len() > 0 && line[0] == '\u{FEFF}' {
        unmarked(line.skip(1))
    } else {
        line
    }
}

/// A backslash stands directly before or behind the `**` at `i`.
pub open spec fn touches_stars(line: Seq<char>, i: int) -> bool {
    &&& line[i] == '*' && line[i + 1] == '*'
    &&& (i > 0 && line[i - 1] == '\\') || (i + 2 < line.len() && line[i + 2] == '\\')
}

/// The number of `{` in a line.
pub open spec fn braces_in(line: Seq<char>) -> nat
    decreases line.len(),
{
    if line.len() == 0 {
        0
    } else if line.last() == '{' {
        braces_in(line.drop_last()) + 1
    } else {
        braces_in(line.drop_last())
    }
}

/// A line of a `.gitignore` file that can be made use of: it means the same on every
/// platform, which a backslash next to a `**` does not, and holds no more `{` than may
/// be nested.
pub open spec fn is_usable(line: Seq<char>) -> bool {
    &&& forall|i: int| 0 <= i < line.len() - 1 ==> !#[trigger] touches_stars(line, i)
    &&& braces_in(line) <= MAX_NESTING
}

/// The lines of a list that can be made use of, in their order.
pub open spec fn usable_lines(lines: Seq<Seq<char>>) -> Seq<Seq<char>>
    decreases lines.len(),
{
    if lines.len() == 0 {
        Seq::empty()
    } else if is_usable(lines.last()) {
        usable_lines(lines.drop_last()).push(lines.last())
    } else {
        usable_lines(lines.drop_last())
    }
}

/// The lines of a `.gitignore` file, the first without its byte order mark.
pub open spec fn lines_read(lines: Seq<String>) -> Seq<Seq<char>> {
    Seq::new(
        lines.len(),
        |i: int|
            if i == 0 {
                unmarked(lines[i]@)
            } else {
                lines[i]@
            },
    )
}

/// The rules of a search: the lines of a `.gitignore` file that can be made use of, and
/// then the rule that leaves out `.git`.
pub open spec fn rules_of(lines: Seq<String>) -> Seq<Seq<char>> {
    usable_lines(lines_read(lines)).push(GIT_DIR_RULE@)
}

/// `path` without separators and components `.` at its start.
pub open spec fn without_start(path: Seq<char>) -> Seq<char>
    decreases path.len(),
{
    if path.len() > 0 && path[0] == '/' {
        without_start(path.skip(1))
    } else if path.len() > 0 && path[0] == '.' && (path.len() == 1 || path[1] == '/') {
        without_start(path.skip(1))
    } else {
        path
    }
}

/// `path` without separators and components `.` at its end.
pub open spec fn without_end(path: Seq<char>) -> Seq<char>
    decreases path.len(),
{
    if path.len() > 0 && path.last() == '/' {
        without_end(path.drop_last())
    } else if path.len() > 0 && path.last() == '.' && (path.len() == 1 || path[path.len() - 2]
        == '/') {
        without_end(path.drop_last())
    } else {
        path
    }
}

/// `path` neither starts nor ends with a separator or a component `.`, and is not empty.
pub open spec fn is_neat(path: Seq<char>) -> bool {
    &&& path.len() > 0
    &&& path[0] != '/'
    &&& !(path[0] == '.' && (path.len() == 1 || path[1] == '/'))
    &&& path.last() != '/'
    &&& !(path.last() == '.' && (path.len() == 1 || path[path.len() - 2] == '/'))
}

/// What stands behind the last `/` of `path`.
pub open spec fn last_component(path: Seq<char>) -> Seq<char> {
    path.skip(last_of(path, '/') + 1)
}

/// `ignore`'s builder of a rule set.
#[verifier::external_type_specification]
#[verifier::external_body]
pub struct ExGitignoreBuilder(ignore::gitignore::GitignoreBuilder);

/// `ignore`'s compiled rule set.
#[verifier::external_type_specification]
#[verifier::external_body]
pub struct ExGitignore(ignore::gitignore::Gitignore);

/// The lines that a builder was given, in order.
pub uninterp spec fn lines_added(builder: GitignoreBuilder) -> Seq<Seq<char>>;

/// The directory that a builder's rules are for.
pub uninterp spec fn root_given(builder: GitignoreBuilder) -> Seq<char>;

/// The lines that a rule set was built from, in order.
pub uninterp spec fn lines_in(rules: Gitignore) -> Seq<Seq<char>>;

/// The directory that a rule set was built for.
pub uninterp spec fn root_in(rules: Gitignore) -> Seq<char>;

/// Whether a rule set can be built from these lines.
pub uninterp spec fn rules_build(lines: Seq<Seq<char>>) -> bool;

/// What the rules say of a path that is relative to them: `Some(true)` leaves it out,
/// `Some(false)` takes it back in, `None` says nothing.
pub uninterp spec fn verdict(lines: Seq<Seq<char>>, path: Seq<char>, is_dir: bool) -> Option<bool>;

/// `ignore`'s `GitignoreBuilder::new`: a builder for rules in `root`, to which no
/// line has been added. Only an empty root is admitted.
#[verifier::external_body]
fn new_builder(root: &str) -> (builder: GitignoreBuilder)
    requires
        root@.len() == 0,
    ensures
        root_given(builder) == root@,
        lines_added(builder) == Seq::<Seq<char>>::empty(),
{
    GitignoreBuilder::new(root)
}

/// `ignore`'s `GitignoreBuilder::add_line`: one more line was given. A line that
/// does not parse as a rule adds none, which is not reported. A backslash next to a `**`
/// is not admitted: some platforms take it for a separator there. Nor are more `{` than
/// `MAX_NESTING`: the call recurses into what they open, and may run out of stack.
#[verifier::external_body]
fn add_line(builder: &mut GitignoreBuilder, line: &str)
    requires
        is_usable(line@),
    ensures
        root_given(*final(builder)) == root_given(*old(builder)),
        lines_added(*final(builder)) == lines_added(*old(builder)).push(line@),
{
    let _ = builder.add_line(None, line);
}

/// `ignore`'s `GitignoreBuilder::build`: the rule set of the lines given so far.
/// Which lines build has a name and is not said.
#[verifier::external_body]
fn build_rules(builder: &GitignoreBuilder) -> (r: Option<Gitignore>)
    ensures
        r is Some <==> rules_build(lines_added(*builder)),
        r matches Some(rules) ==> root_in(rules) == root_given(*builder),
        r matches Some(rules) ==> lines_in(rules) == lines_added(*builder),
{
    builder.build().ok()
}

/// `ignore`'s `Gitignore::matched`, on a rule set with an empty root: paths are then
/// taken as relative to the rules. What the rules say has a name and is not said. A
/// path with a backslash is not admitted: some platforms take it for a separator. Nor is
/// one that starts or ends with a `/` or a component `.`: some platforms overlook them.
#[verifier::external_body]
fn match_rules(rules: &Gitignore, path: &str, is_dir: bool) -> (r: Option<bool>)
    requires
        root_in(*rules).len() == 0,
        !path@.contains('\\'),
        is_neat(path@),
    ensures
        r == verdict(lines_in(*rules), path@, is_dir),
{
    match rules.matched(path, is_dir) {
        Match::None => None,
        Match::Ignore(_) => Some(true),
        Match::Whitelist(_) => Some(false),
    }
}

/// What the rules say of a path, of which separators and components `.` at its start and
/// its end are no part. Of an empty path they say nothing.
pub open spec fn said_of(lines: Seq<Seq<char>>, path: Seq<char>, is_dir: bool) -> Option<bool> {
    let neat = without_end(without_start(path));
    if neat.len() == 0 {
        None
    } else {
        verdict(lines, neat, is_dir)
    }
}

/// The rules leave out `path` itself or a directory above it.
pub open spec fn left_out(lines: Seq<Seq<char>>, path: Seq<char>, is_dir: bool) -> bool {
    ||| said_of(lines, path, is_dir) == Some(true)
    ||| exists|i: int|
        0 < i < path.len() && #[trigger] path[i] == '/' && said_of(lines, path.take(i), true)
            == Some(true)
}

/// `path` is a directory named `.git`, or lies inside one.
pub open spec fn in_git_dir(path: Seq<char>, is_dir: bool) -> bool {
    ||| is_dir && last_component(path) == ".git"@
    ||| exists|i: int|
        0 < i < path.len() && #[trigger] path[i] == '/' && last_component(path.take(i)) == ".git"@
}

/// `line` without byte order marks at its start.
fn unmark(line: &str) -> (s: String)
    ensures
        s@ == unmarked(line@),
{
    let chars = chars_of(line);
    let mut i: usize = 0;
    assert(line@.skip(0) == line@);
    while i < chars.len() && chars[i] == '\u{FEFF}'
        invariant
            i <= chars@.len(),
            chars@ == line@,
            unmarked(line@) == unmarked(line@.skip(i as int)),
        decreases chars@.len() - i,
    {
        assert(line@.skip(i as int).skip(1) == line@.skip(i + 1));
        i += 1;
    }
    assert(chars@.subrange(i as int, chars@.len() as int) == line@.skip(i as int));
    string_of(&chars, i, chars.len())
}

/// Whether a line can be made use of.
fn usable(line: &str) -> (r: bool)
    ensures
        r == is_usable(line@),
{
    let chars = chars_of(line);
    let mut braces: usize = 0;
    let mut i: usize = 0;
    while i < chars.len()
        invariant
            i <= chars@.len(),
            chars@ == line@,
            braces == braces_in(line@.take(i as int)),
            braces <= i,
            forall|k: int|
                0 <= k < i && k < line@.len() - 1 ==> !#[trigger] touches_stars(line@, k),
        decreases chars@.len() - i,
    {
        if chars[i] == '{' {
            braces += 1;
        }
        if chars[i] == '*' && i + 1 < chars.len() && chars[i + 1] == '*' {
            let before = i > 0 && chars[i - 1] == '\\';
            let behind = i + 2 < chars.len() && chars[i + 2] == '\\';
            if before || behind {
                assert(touches_stars(line@, i as int));
                return false;
            }
        }
        i += 1;
        assert(line@.take(i as int).drop_last() == line@.take(i - 1));
    }
    assert(line@.take(i as int) == line@);
    braces <= MAX_NESTING
}

/// Build the rules from the lines of a `.gitignore` file (none, if there is no
/// file). Lines that cannot be made use of are passed over. The `.git` directory itself
/// is always ignored.
pub fn build_gitignore(lines: &Vec<String>) -> (r: Option<Gitignore>)
    ensures
        r is Some <==> rules_build(rules_of(lines@)),
        r matches Some(rules) ==> root_in(rules).len() == 0,
        r matches Some(rules) ==> lines_in(rules) == rules_of(lines@),
{
    proof {
        reveal_strlit("");
        lemma_git_dir_rule();
    }
    let mut builder = new_builder("");
    let ghost read = lines_read(lines@);
    let mut i: usize = 0;
    while i < lines.len()
        invariant
            i <= lines@.len(),
            read == lines_read(lines@),
            root_given(builder).len() == 0,
            lines_added(builder) == usable_lines(read.take(i as int)),
        decreases lines@.len() - i,
    {
        let line = if i == 0 {
            unmark(lines[0].as_str())
        } else {
            lines[i].clone()
        };
        if usable(line.as_str()) {
            add_line(&mut builder, line.as_str());
        }
        i += 1;
        assert(read.take(i as int).drop_last() == read.take(i - 1));
    }
    assert(read.take(i as int) == read);
    add_line(&mut builder, GIT_DIR_RULE);
    build_rules(&builder)
}

/// The rule on `.git` can be made use of.
proof fn lemma_git_dir_rule()
    ensures
        is_usable(GIT_DIR_RULE@),
{
    reveal_strlit(".git/");
    let rule = GIT_DIR_RULE@;
    lemma_no_braces(rule);
    assert forall|i: int| 0 <= i < rule.len() - 1 implies !#[trigger] touches_stars(rule, i) by {
        assert(rule[i] != '*');
    }
}

/// A line without `{` holds none.
proof fn lemma_no_braces(line: Seq<char>)
    requires
        forall|i: int| 0 <= i < line.len() ==> #[trigger] line[i] != '{',
    ensures
        braces_in(line) == 0,
    decreases line.len(),
{
    if line.len() > 0 {
        lemma_no_braces(line.drop_last());
    }
}

/// What is left of a path is neat, if anything is left.
proof fn lemma_neat(path: Seq<char>)
    ensures
        without_start(path).len() <= path.len(),
        without_end(without_start(path)).len() > 0 ==> is_neat(without_end(without_start(path))),
{
    lemma_without_start(path);
    lemma_without_end(without_start(path));
}

/// What is left behind the start of a path is the end of it, and does not start with a
/// separator or a component `.`.
proof fn lemma_without_start(path: Seq<char>)
    ensures
        without_start(path).len() <= path.len(),
        ({
            let rest = without_start(path);
            rest.len() > 0 ==> rest[0] != '/' && !(rest[0] == '.' && (rest.len() == 1 || rest[1]
                == '/'))
        }),
    decreases path.len(),
{
    if path.len() > 0 && (path[0] == '/' || path[0] == '.' && (path.len() == 1 || path[1] == '/')) {
        lemma_without_start(path.skip(1));
    }
}

/// What is left before the end of a path is the start of it, and does not end with a
/// separator or a component `.`.
proof fn lemma_without_end(path: Seq<char>)
    ensures
        ({
            let rest = without_end(path);
            &&& rest.len() <= path.len()
            &&& rest == path.take(rest.len() as int)
            &&& rest.len() > 0 ==> rest.last() != '/' && !(rest.last() == '.' && (rest.len() == 1
                || rest[rest.len() - 2] == '/'))
        }),
        path.len() > 1 && path[0] == '.' && path[1] != '/' ==> without_end(path).len() != 1,
    decreases path.len(),
{
    if path.len() > 0 && (path.last() == '/' || path.last() == '.' && (path.len() == 1 || path[
    path.len() - 2] == '/')) {
        lemma_without_end(path.drop_last());
        let rest = without_end(path);
        assert(rest =~= path.take(rest.len() as int));
    } else {
        assert(path =~= path.take(path.len() as int));
    }
}

/// What the rules say of the path in `chars` up to `end`.
fn ask(rules: &Gitignore, chars: &Vec<char>, end: usize, is_dir: bool) -> (r: Option<bool>)
    requires
        root_in(*rules).len() == 0,
        !chars@.contains('\\'),
        end <= chars@.len(),
    ensures
        r == said_of(lines_in(*rules), chars@.take(end as int), is_dir),
{
    let ghost path = chars@.take(end as int);
    let mut from: usize = 0;
    assert(path.skip(0) == path);
    while from < end && (chars[from] == '/' || (chars[from] == '.' && (from + 1 == end || chars[from
        + 1] == '/')))
        invariant
            from <= end <= chars@.len(),
            path == chars@.take(end as int),
            without_start(path) == without_start(path.skip(from as int)),
        decreases end - from,
    {
        assert(path.skip(from as int).skip(1) == path.skip(from + 1));
        from += 1;
    }
    let ghost rest = path.skip(from as int);
    assert(without_start(path) == rest);
    let mut to: usize = end;
    assert(rest.take(to - from) == rest);
    while to > from && (chars[to - 1] == '/' || (chars[to - 1] == '.' && (to - 1 == from || chars[to
        - 2] == '/')))
        invariant
            from <= to <= end <= chars@.len(),
            path == chars@.take(end as int),
            rest == path.skip(from as int),
            without_end(rest) == without_end(rest.take(to - from)),
        decreases to - from,
    {
        assert(rest.take(to - from).drop_last() == rest.take(to - from - 1));
        to -= 1;
    }
    let ghost neat = without_end(without_start(path));
    assert(neat == rest.take(to - from));
    if from == to {
        return None;
    }
    let text = string_of(chars, from, to);
    proof {
        assert(text@ =~= neat);
        lemma_neat(path);
        assert forall|k: int| 0 <= k < text@.len() implies text@[k] != '\\' by {
            assert(chars@.contains(chars@[from + k]));
        }
    }
    match_rules(rules, text.as_str(), is_dir)
}

/// Whether the rules leave out `path`, which is relative to their directory and
/// written with slashes, or a directory above it.
pub fn is_left_out(rules: &Gitignore, path: &str, is_dir: bool) -> (r: bool)
    requires
        root_in(*rules).len() == 0,
        !path@.contains('\\'),
    ensures
        r == left_out(lines_in(*rules), path@, is_dir),
{
    let chars = chars_of(path);
    let mut i: usize = 1;
    let ghost lines = lines_in(*rules);
    while i < chars.len()
        invariant
            1 <= i,
            chars@ == path@,
            root_in(*rules).len() == 0,
            !path@.contains('\\'),
            lines == lines_in(*rules),
            forall|j: int|
                0 < j < i && j < path@.len() && #[trigger] path@[j] == '/' ==> said_of(
                    lines,
                    path@.take(j),
                    true,
                ) != Some(true),
        decreases chars@.len() - i,
    {
        if chars[i] == '/' {
            match ask(rules, &chars, i, true) {
                Some(true) => {
                    return true;
                },
                _ => {},
            }
        }
        i += 1;
    }
    assert(path@.take(chars@.len() as int) == path@);
    match ask(rules, &chars, chars.len(), is_dir) {
        Some(true) => true,
        _ => false,
    }
}

/// Whether the component of `chars` that ends before `end` is `.git`.
fn git_before(chars: &Vec<char>, end: usize) -> (r: bool)
    requires
        end <= chars@.len(),
    ensures
        r == (last_component(chars@.take(end as int)) == ".git"@),
{
    let head = string_of(chars, 0, end);
    let head_chars = chars_of(head.as_str());
    assert(head_chars@ =~= chars@.take(end as int));
    let from = after_last(&head_chars, '/');
    let name = string_of(&head_chars, from, end);
    assert(name@ =~= last_component(chars@.take(end as int)));
    is_text(&name, ".git")
}

/// Whether `path`, written with slashes, is a directory named `.git`, or lies inside
/// one.
pub fn is_in_git_dir(path: &str, is_dir: bool) -> (r: bool)
    ensures
        r == in_git_dir(path@, is_dir),
{
    let chars = chars_of(path);
    let mut i: usize = 1;
    while i < chars.len()
        invariant
            1 <= i,
            chars@ == path@,
            forall|j: int|
                0 < j < i && j < path@.len() && #[trigger] path@[j] == '/' ==> last_component(
                    path@.take(j),
                ) != ".git"@,
        decreases chars@.len() - i,
    {
        if chars[i] == '/' && git_before(&chars, i) {
            return true;
        }
        i += 1;
    }
    assert(path@.take(path@.len() as int) =~= path@);
    is_dir && git_before(&chars, chars.len())
}

} // verus!
