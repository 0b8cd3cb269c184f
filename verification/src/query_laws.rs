//! What a query asks, in terms of what was typed: the pattern is handed on as it is, a
//! root holds everything below it, and of the rules that leave something out, each leaves
//! out what it names.

use vstd::prelude::*;

use crate::gitignore::{
    braces_in, in_git_dir, is_usable, last_component, left_out, lines_read, rules_build, rules_of,
    said_of, touches_stars, unmarked, usable_lines, verdict, without_end, without_start,
};
use crate::glob::{
    depth_after, fixed_ext, glob_accepts, glob_error, is_literal, is_shallow,
    lemma_place_with_slashes, lemma_tail, place_after, tail_of, with_slashes, Place,
};
use crate::mft::{path_of, IndexView};
use crate::search::{
    drive_in, drive_searched, hit_of, pattern_accepts, pattern_error, relative, rule_of, trimmed,
    HitView, Query, Rule,
};
use crate::text::{last_of, lemma_last_of, lemma_same_letters, lower, lowered, replaced};

verus! {

/// `s` with a slash in place of each backslash.
pub open spec fn slashed(s: Seq<char>) -> Seq<char> {
    Seq::new(s.len(), |i: int| if s[i] == '\\' { '/' } else { s[i] })
}

/// A pattern is handed on as it was typed: it keeps its length and every character but
/// backslashes, for which slashes may stand. One without a backslash is not changed.
pub proof fn law_pattern_is_kept(pattern: Seq<char>)
    ensures
        with_slashes(pattern).len() == pattern.len(),
        forall|i: int|
            0 <= i < pattern.len() && pattern[i] != '\\' ==> #[trigger] with_slashes(pattern)[i]
                == pattern[i],
        forall|i: int|
            0 <= i < pattern.len() && pattern[i] == '\\' ==> #[trigger] with_slashes(pattern)[i]
                == '\\' || with_slashes(pattern)[i] == '/',
        !pattern.contains('\\') ==> with_slashes(pattern) == pattern,
{
    if !pattern.contains('\\') {
        assert forall|i: int| 0 <= i < pattern.len() implies with_slashes(pattern)[i]
            == pattern[i] by {
            assert(pattern.contains(pattern[i]));
        }
        assert(with_slashes(pattern) =~= pattern);
    }
}

/// Behind a closed part of a pattern it is as at the start.
proof fn lemma_places_start_anew(a: Seq<char>, b: Seq<char>, i: int)
    requires
        place_after(a) == Place::Outside,
        0 <= i <= b.len(),
    ensures
        place_after((a + b).take(a.len() + i)) == place_after(b.take(i)),
    decreases i,
{
    let all = a + b;
    if i == 0 {
        assert(all.take(a.len() as int) =~= a);
    } else {
        lemma_places_start_anew(a, b, i - 1);
        assert(all.take(a.len() + i).drop_last() =~= all.take(a.len() + i - 1));
        assert(b.take(i).drop_last() =~= b.take(i - 1));
    }
}

/// Slashes are put in a closed part and in what follows it.
proof fn lemma_parts_get_slashes(a: Seq<char>, b: Seq<char>)
    requires
        place_after(a) == Place::Outside,
    ensures
        with_slashes(a + b) == with_slashes(a) + with_slashes(b),
{
    let all = a + b;
    assert forall|i: int| 0 <= i < all.len() implies with_slashes(all)[i] == (with_slashes(a)
        + with_slashes(b))[i] by {
        if i < a.len() {
            assert(all.take(i) =~= a.take(i));
        } else {
            lemma_places_start_anew(a, b, i - a.len());
            assert(all.take(i) == all.take(a.len() + (i - a.len())));
        }
    }
    assert(with_slashes(all) =~= with_slashes(a) + with_slashes(b));
}

/// Without a `[` there is no class.
proof fn lemma_no_class(plain: Seq<char>, i: int)
    requires
        !plain.contains('['),
        0 <= i <= plain.len(),
    ensures
        place_after(plain.take(i)) == Place::Outside,
    decreases i,
{
    if i > 0 {
        lemma_no_class(plain, i - 1);
        assert(plain.take(i).drop_last() =~= plain.take(i - 1));
        assert(plain.contains(plain[i - 1]));
    }
}

/// Outside of classes a backslash separates components, as a slash does.
pub proof fn law_backslashes_separate(plain: Seq<char>, rest: Seq<char>)
    requires
        !plain.contains('['),
    ensures
        with_slashes(plain + rest) == slashed(plain) + with_slashes(rest),
{
    lemma_no_class(plain, plain.len() as int);
    assert(plain.take(plain.len() as int) =~= plain);
    lemma_parts_get_slashes(plain, rest);
    assert forall|i: int| 0 <= i < plain.len() implies with_slashes(plain)[i]
        == slashed(plain)[i] by {
        lemma_no_class(plain, i);
    }
    assert(with_slashes(plain) =~= slashed(plain));
}

/// The members of a class, between its brackets: there is one at least, and the first, or
/// the first behind a `!` or `^`, may be a `]`, but none behind that.
pub open spec fn are_members(members: Seq<char>) -> bool {
    let first: int = if members.len() > 0 && (members[0] == '!' || members[0] == '^') {
        1
    } else {
        0
    };
    &&& members.len() > first
    &&& forall|i: int| first < i < members.len() ==> #[trigger] members[i] != ']'
}

/// The places of the members of a class.
proof fn lemma_members(members: Seq<char>, i: int)
    requires
        are_members(members),
        0 <= i <= members.len(),
    ensures
        place_after((seq!['['] + members).take(i + 1)) != Place::Outside,
        ({
            let negated = members[0] == '!' || members[0] == '^';
            &&& i == 0 ==> place_after((seq!['['] + members).take(i + 1)) == Place::Opened
            &&& i == 1 && negated ==> place_after((seq!['['] + members).take(i + 1))
                == Place::Negated
            &&& i > 1 || (i == 1 && !negated) ==> place_after((seq!['['] + members).take(i + 1))
                == Place::Inside
        }),
    decreases i,
{
    let open = seq!['['] + members;
    assert(open.take(i + 1).drop_last() =~= open.take(i));
    if i == 0 {
        assert(open.take(0) =~= Seq::empty());
        reveal_with_fuel(place_after, 2);
    } else {
        lemma_members(members, i - 1);
        assert(open.take(i + 1).last() == members[i - 1]);
    }
}

/// Inside a class a backslash is a member like any other.
pub proof fn law_classes_are_kept(members: Seq<char>, rest: Seq<char>)
    requires
        are_members(members),
    ensures
        with_slashes(seq!['['] + members + seq![']'] + rest) == seq!['['] + members + seq![']']
            + with_slashes(rest),
{
    let open = seq!['['] + members;
    let class = open + seq![']'];
    assert forall|i: int| 0 <= i < class.len() implies with_slashes(class)[i] == class[i] by {
        if i > 0 {
            lemma_members(members, i - 1);
            assert(class.take(i) =~= open.take(i));
        }
    }
    assert(with_slashes(class) =~= class);
    lemma_members(members, members.len() as int);
    assert(open.take(open.len() as int) =~= open);
    assert(class.drop_last() =~= open);
    lemma_parts_get_slashes(class, rest);
}

/// The pattern is asked about the path with slashes: letters in either case, and wildcards
/// match separators too.
pub proof fn law_pattern_is_asked_about_the_path(rule: Rule, rel: Seq<char>)
    ensures
        pattern_accepts(rule, rel) == glob_accepts(rule.pattern, true, false, slashed(rel)),
{
    assert(replaced(rel, '\\', '/') =~= slashed(rel));
}

/// A pattern is refused for what `globset` says of it, unless it opens more than 250
/// alternatives.
pub proof fn law_patterns_are_refused_by_globset(pattern: Seq<char>)
    requires
        pattern.filter(|c: char| c == '{').len() <= 250,
    ensures
        pattern_error(pattern) == glob_error(with_slashes(pattern), true, false),
{
    let p = with_slashes(pattern);
    assert forall|i: int| 0 <= i <= p.len() implies depth_after(#[trigger] p.take(i)) <= 250 by {
        lemma_depth(pattern, i);
        lemma_opened(pattern, i, pattern.len() as int);
        assert(pattern.take(pattern.len() as int) =~= pattern);
    }
    assert(is_shallow(p));
}

/// No more alternatives are open than were opened.
proof fn lemma_depth(pattern: Seq<char>, i: int)
    requires
        0 <= i <= pattern.len(),
    ensures
        depth_after(with_slashes(pattern).take(i)) <= pattern.take(i).filter(
            |c: char| c == '{',
        ).len(),
    decreases i,
{
    reveal(Seq::filter);
    if i > 0 {
        let p = with_slashes(pattern);
        lemma_depth(pattern, i - 1);
        assert(p.take(i).drop_last() =~= p.take(i - 1));
        assert(pattern.take(i).drop_last() =~= pattern.take(i - 1));
    }
}

/// More alternatives are opened in more of a pattern.
proof fn lemma_opened(pattern: Seq<char>, i: int, j: int)
    requires
        0 <= i <= j <= pattern.len(),
    ensures
        pattern.take(i).filter(|c: char| c == '{').len() <= pattern.take(j).filter(
            |c: char| c == '{',
        ).len(),
    decreases j - i,
{
    reveal(Seq::filter);
    if i < j {
        lemma_opened(pattern, i, j - 1);
        assert(pattern.take(j).drop_last() =~= pattern.take(j - 1));
    }
}

/// Alternatives that are closed again count no longer: a pattern without classes is refused
/// for its depth only where more than 250 are open at once.
pub proof fn law_closed_alternatives_do_not_count(pattern: Seq<char>)
    requires
        !pattern.contains('['),
        forall|i: int|
            0 <= i <= pattern.len() ==> {
                let opened = (#[trigger] pattern.take(i)).filter(|c: char| c == '{').len();
                let closed = pattern.take(i).filter(|c: char| c == '}').len();
                closed <= opened <= closed + 250
            },
    ensures
        pattern_error(pattern) == glob_error(with_slashes(pattern), true, false),
{
    let p = with_slashes(pattern);
    assert forall|i: int| 0 <= i <= p.len() implies depth_after(#[trigger] p.take(i)) <= 250 by {
        lemma_open_now(pattern, i);
        assert(pattern.take(i).filter(|c: char| c == '{').len() <= pattern.take(i).filter(
            |c: char| c == '}',
        ).len() + 250);
    }
    assert(is_shallow(p));
}

/// As many alternatives are open as were opened and not closed.
proof fn lemma_open_now(pattern: Seq<char>, i: int)
    requires
        !pattern.contains('['),
        0 <= i <= pattern.len(),
        forall|k: int|
            0 <= k <= pattern.len() ==> (#[trigger] pattern.take(k)).filter(
                |c: char| c == '}',
            ).len() <= pattern.take(k).filter(|c: char| c == '{').len(),
    ensures
        depth_after(with_slashes(pattern).take(i)) + pattern.take(i).filter(
            |c: char| c == '}',
        ).len() == pattern.take(i).filter(|c: char| c == '{').len(),
    decreases i,
{
    reveal(Seq::filter);
    if i > 0 {
        let p = with_slashes(pattern);
        lemma_open_now(pattern, i - 1);
        assert(p.take(i).drop_last() =~= p.take(i - 1));
        assert(pattern.take(i).drop_last() =~= pattern.take(i - 1));
        lemma_no_class(pattern, i - 1);
        lemma_place_with_slashes(pattern, i - 1);
        assert(pattern.take(i).filter(|c: char| c == '}').len() <= pattern.take(i).filter(
            |c: char| c == '{',
        ).len());
    }
}

/// A character that is special in a pattern, or separates components.
pub open spec fn is_special(c: char) -> bool {
    c == '*' || c == '?' || c == '[' || c == ']' || c == '{' || c == '}' || c == ',' || c == '\\'
        || c == '/'
}

/// The end of a pattern that every match must have is made of its last characters, and
/// none of them is special. It reaches back to the last special one.
pub proof fn law_fixed_end_is_plain(pattern: Seq<char>, plain: Seq<char>)
    requires
        forall|i: int| 0 <= i < plain.len() ==> !is_special(#[trigger] plain[i]),
    ensures
        forall|i: int|
            0 <= i < tail_of(pattern).len() ==> !is_special(#[trigger] tail_of(pattern)[i]),
        tail_of(pattern).len() <= pattern.len(),
        pattern.skip(pattern.len() - tail_of(pattern).len()) == tail_of(pattern),
        pattern.len() > 0 && is_special(pattern.last()) ==> tail_of(pattern + plain) == plain,
        tail_of(plain) == plain,
{
    lemma_tail(pattern);
    assert forall|i: int| 0 <= i < tail_of(pattern).len() implies !is_special(
        #[trigger] tail_of(pattern)[i],
    ) by {
        assert(is_literal(tail_of(pattern)[i]));
    }
    lemma_tail_of_plain(pattern, plain);
    lemma_tail_of_plain(Seq::empty(), plain);
    assert(Seq::<char>::empty() + plain =~= plain);
}

/// Plain characters at the end of a pattern belong to its end.
proof fn lemma_tail_of_plain(pattern: Seq<char>, plain: Seq<char>)
    requires
        forall|i: int| 0 <= i < plain.len() ==> !is_special(#[trigger] plain[i]),
    ensures
        pattern.len() == 0 || is_special(pattern.last()) ==> tail_of(pattern + plain) == plain,
        tail_of(pattern + plain).len() >= plain.len(),
        plain.is_suffix_of(tail_of(pattern + plain)),
    decreases plain.len(),
{
    let all = pattern + plain;
    if plain.len() == 0 {
        assert(all =~= pattern);
        assert(plain =~= tail_of(all).subrange(
            tail_of(all).len() as int,
            tail_of(all).len() as int,
        ));
        if pattern.len() == 0 || is_special(pattern.last()) {
            assert(tail_of(all) =~= plain);
        }
    } else {
        assert(!is_special(plain[plain.len() - 1]));
        assert(all.last() == plain.last());
        assert(all.drop_last() =~= pattern + plain.drop_last());
        assert forall|i: int| 0 <= i < plain.drop_last().len() implies !is_special(
            #[trigger] plain.drop_last()[i],
        ) by {
            assert(!is_special(plain[i]));
        }
        lemma_tail_of_plain(pattern, plain.drop_last());
        let before = tail_of(all.drop_last());
        let tail = tail_of(all);
        assert(plain =~= tail.subrange(tail.len() - plain.len(), tail.len() as int)) by {
            let n = plain.len() - 1;
            assert(plain.drop_last() == before.subrange(before.len() - n, before.len() as int));
            assert forall|i: int| 0 <= i < plain.len() implies plain[i] == tail.subrange(
                tail.len() - plain.len(),
                tail.len() as int,
            )[i] by {
                if i < n {
                    assert(plain.drop_last()[i] == before.subrange(
                        before.len() - n,
                        before.len() as int,
                    )[i]);
                }
            }
        }
        if pattern.len() == 0 || is_special(pattern.last()) {
            assert(tail =~= plain);
        }
    }
}

/// A pattern that ends in a dot and plain characters fixes these as the extension.
pub proof fn law_extension_is_fixed(pattern: Seq<char>, ext: Seq<char>)
    requires
        ext.len() > 0,
        forall|i: int| 0 <= i < ext.len() ==> !is_special(#[trigger] ext[i]) && ext[i] != '.',
    ensures
        fixed_ext(pattern + seq!['.'] + ext) == Some(lowered(ext)),
        pattern.len() > 0 && is_special(pattern.last()) ==> fixed_ext(pattern) is None,
        pattern.len() > 0 && is_special(pattern.last()) ==> fixed_ext(pattern + ext) is None,
{
    let plain = seq!['.'] + ext;
    assert forall|i: int| 0 <= i < plain.len() implies !is_special(#[trigger] plain[i]) by {
        if i > 0 {
            assert(plain[i] == ext[i - 1]);
        }
    }
    lemma_tail_of_plain(pattern, plain);
    let all = pattern + seq!['.'] + ext;
    assert(all =~= pattern + plain);
    let tail = tail_of(all);
    let from = tail.len() - plain.len();
    assert(plain == tail.subrange(from, tail.len() as int));
    assert(tail[from] == plain[0]);
    lemma_last_of(tail, '.');
    if last_of(tail, '.') > from {
        let i = last_of(tail, '.') - from;
        assert(tail[last_of(tail, '.')] == plain[i]);
        assert(plain[i] == ext[i - 1]);
    }
    assert(last_of(tail, '.') == from);
    assert(tail.skip(from + 1) =~= ext) by {
        assert forall|i: int| 0 <= i < ext.len() implies tail.skip(from + 1)[i] == ext[i] by {
            assert(tail[from + 1 + i] == plain[i + 1]);
        }
    }
    if pattern.len() > 0 && is_special(pattern.last()) {
        lemma_tail_of_plain(pattern, Seq::empty());
        assert(pattern + Seq::<char>::empty() =~= pattern);
        assert(last_of(Seq::<char>::empty(), '.') == -1);
        lemma_tail_of_plain(pattern, ext);
        lemma_last_of(ext, '.');
    }
}

/// A root holds everything below it, at any depth, and nothing else: what follows it and a
/// backslash in a path is what is relative to it. Letters compare in either case.
pub proof fn law_root_holds_what_is_below(root: Seq<char>, spelt: Seq<char>, rest: Seq<char>)
    requires
        root.len() > 0,
        lowered(spelt) == lowered(root),
    ensures
        relative(spelt + seq!['\\'] + rest, lowered(root)) == Some(rest),
        relative(spelt, lowered(root)) == Some(Seq::<char>::empty()),
        rest.len() > 0 && rest[0] != '\\' ==> relative(spelt + rest, lowered(root)) is None,
        relative(rest, Seq::empty()) == Some(rest),
{
    let n = root.len() as int;
    lemma_same_letters(spelt, root);
    let below = spelt + seq!['\\'] + rest;
    assert(below.take(n) =~= spelt);
    assert(below.skip(n + 1) =~= rest);
    assert(spelt.take(n) =~= spelt);
    assert((spelt + rest).take(n) =~= spelt);
}

/// A path that does not start as the root does, but for the case of letters, is not below
/// it, nor is one that is shorter.
pub proof fn law_root_holds_nothing_else(full: Seq<char>, root: Seq<char>, i: int)
    requires
        0 <= i < root.len(),
        i < full.len() ==> lower(full[i]) != lower(root[i]),
    ensures
        relative(full, lowered(root)) is None,
{
    let n = root.len() as int;
    if full.len() >= n {
        assert(lowered(full.take(n))[i] == lower(full[i]));
        assert(lowered(root)[i] == lower(root[i]));
    }
}

/// What lies in a directory that is in scope is in scope: its path relative to the root is
/// that of the directory, a backslash and the name, or the name alone in the root itself.
pub proof fn law_children_are_in_scope(dir: Seq<char>, name: Seq<char>, root: Seq<char>)
    requires
        root.len() > 0,
        relative(dir, lowered(root)) is Some,
    ensures
        ({
            let rel = relative(dir, lowered(root))->0;
            let child = dir + seq!['\\'] + name;
            if rel.len() > 0 {
                relative(child, lowered(root)) == Some(rel + seq!['\\'] + name)
            } else {
                dir.len() == root.len() ==> relative(child, lowered(root)) == Some(name)
            }
        }),
{
    let n = root.len() as int;
    let child = dir + seq!['\\'] + name;
    assert(lowered(root).len() == n);
    assert(child.take(n) =~= dir.take(n));
    if dir.len() == n {
        assert(child.skip(n + 1) =~= name);
    } else {
        assert(child.skip(n + 1) =~= dir.skip(n + 1) + seq!['\\'] + name);
    }
}

/// A root is what was typed, but for slashes and backslashes at its end.
pub proof fn law_root_is_kept(root: Seq<char>, ends: Seq<char>)
    requires
        root.len() > 0 ==> root.last() != '\\' && root.last() != '/',
        forall|i: int| 0 <= i < ends.len() ==> #[trigger] ends[i] == '\\' || ends[i] == '/',
    ensures
        trimmed(root + ends) == root,
    decreases ends.len(),
{
    let all = root + ends;
    if ends.len() == 0 {
        assert(all =~= root);
    } else {
        assert(ends[ends.len() - 1] == all.last());
        assert(all.drop_last() =~= root + ends.drop_last());
        assert forall|i: int| 0 <= i < ends.drop_last().len() implies #[trigger] ends.drop_last()[i]
            == '\\' || ends.drop_last()[i] == '/' by {
            assert(ends[i] == ends.drop_last()[i]);
        }
        law_root_is_kept(root, ends.drop_last());
    }
}

/// A path names a drive if it starts with a letter, of either case, and a colon; it is the
/// drive of that letter. A query whose root names none searches drive C.
pub proof fn law_drive_of_a_path(path: Seq<char>, c: char, rest: Seq<char>)
    ensures
        ({
            let named = seq![c, ':'] + rest;
            &&& 'A' <= c <= 'Z' ==> drive_in(named) == Some(c) && drive_searched(named) == c
            &&& 'a' <= c <= 'z' ==> {
                &&& drive_in(named) matches Some(d) && d as int == c as int - 32
                &&& drive_in(named) == Some(drive_searched(named))
            }
            &&& !('A' <= c <= 'Z' || 'a' <= c <= 'z') ==> drive_in(named) is None
        }),
        path.len() < 2 || path[1] != ':' ==> drive_in(path) is None,
        drive_in(path) is None ==> drive_searched(path) == 'C',
{
    let named = seq![c, ':'] + rest;
    assert(named[0] == c && named[1] == ':');
}

/// One component of the path is `.git`: the last one, if the path is that of a directory,
/// or an earlier one.
pub open spec fn names_git(path: Seq<char>, is_dir: bool) -> bool {
    exists|i: int|
        #![trigger path.subrange(i, i + 4)]
        {
            &&& 0 <= i <= path.len() - 4
            &&& path.subrange(i, i + 4) == seq!['.', 'g', 'i', 't']
            &&& i == 0 || path[i - 1] == '/'
            &&& if i + 4 == path.len() {
                is_dir
            } else {
                path[i + 4] == '/'
            }
        }
}

/// The last component of a path is `.git` where its last four characters are these, with a
/// slash or nothing before them.
proof fn lemma_last_component_is_git(path: Seq<char>)
    ensures
        last_component(path) == ".git"@ <==> {
            let i = path.len() - 4;
            &&& 0 <= i
            &&& path.subrange(i, i + 4) == seq!['.', 'g', 'i', 't']
            &&& i == 0 || path[i - 1] == '/'
        },
{
    reveal_strlit(".git");
    let git = seq!['.', 'g', 'i', 't'];
    assert(".git"@ =~= git);
    lemma_last_of(path, '/');
    let i = path.len() - 4;
    if last_component(path) == ".git"@ {
        assert(path.skip(last_of(path, '/') + 1).len() == 4);
        assert(path.subrange(i, i + 4) =~= path.skip(last_of(path, '/') + 1));
    }
    if 0 <= i && path.subrange(i, i + 4) == git && (i == 0 || path[i - 1] == '/') {
        assert forall|k: int| i <= k < path.len() implies #[trigger] path[k] != '/' by {
            assert(path[k] == path.subrange(i, i + 4)[k - i]);
            assert(git[k - i] != '/');
        }
        assert(last_of(path, '/') == i - 1);
        assert(path.skip(i) =~= path.subrange(i, i + 4));
    }
}

/// The rule on `.git` leaves out a directory of just that name, and what lies inside one,
/// at any depth; it leaves out nothing else.
pub proof fn law_only_git_is_left_out_as_git(path: Seq<char>, is_dir: bool)
    ensures
        in_git_dir(path, is_dir) <==> names_git(path, is_dir),
{
    if in_git_dir(path, is_dir) {
        if is_dir && last_component(path) == ".git"@ {
            lemma_last_component_is_git(path);
            let i = path.len() - 4;
            assert(path.subrange(i, i + 4) == seq!['.', 'g', 'i', 't']);
        } else {
            let j = choose|j: int|
                0 < j < path.len() && #[trigger] path[j] == '/' && last_component(path.take(j))
                    == ".git"@;
            lemma_last_component_is_git(path.take(j));
            let i = j - 4;
            assert(path.take(j).subrange(i, i + 4) =~= path.subrange(i, i + 4));
            if i > 0 {
                assert(path.take(j)[i - 1] == path[i - 1]);
            }
        }
    }
    if names_git(path, is_dir) {
        let i = choose|i: int|
            #![trigger path.subrange(i, i + 4)]
            {
                &&& 0 <= i <= path.len() - 4
                &&& path.subrange(i, i + 4) == seq!['.', 'g', 'i', 't']
                &&& i == 0 || path[i - 1] == '/'
                &&& if i + 4 == path.len() {
                    is_dir
                } else {
                    path[i + 4] == '/'
                }
            };
        if i + 4 == path.len() {
            lemma_last_component_is_git(path);
        } else {
            let j = i + 4;
            assert(path.take(j).subrange(i, i + 4) =~= path.subrange(i, i + 4));
            if i > 0 {
                assert(path.take(j)[i - 1] == path[i - 1]);
            }
            lemma_last_component_is_git(path.take(j));
            assert(path[j] == '/');
        }
    }
}

/// Every component of the path is a name: none is empty, and none is `.`.
pub open spec fn is_tidy(path: Seq<char>) -> bool {
    &&& path.len() > 0
    &&& forall|i: int|
        0 <= i < path.len() && #[trigger] path[i] == '/' ==> 0 < i < path.len() - 1 && path[i + 1]
            != '/'
    &&& forall|i: int|
        0 <= i < path.len() && #[trigger] path[i] == '.' ==> {
            ||| i > 0 && path[i - 1] != '/'
            ||| i + 1 < path.len() && path[i + 1] != '/'
        }
}

/// Nothing is taken off a tidy path.
proof fn lemma_tidy(path: Seq<char>)
    requires
        path.len() > 0,
        path[0] != '/',
        path.last() != '/',
        path[0] == '.' ==> path.len() > 1 && path[1] != '/',
        path.last() == '.' ==> path.len() > 1 && path[path.len() - 2] != '/',
    ensures
        without_end(without_start(path)) == path,
{
}

/// The rules are asked about a path itself and about every directory above it, and leave
/// it out if they leave out any of these.
pub proof fn law_rules_are_asked_about_the_path_and_above(
    lines: Seq<Seq<char>>,
    path: Seq<char>,
    is_dir: bool,
)
    requires
        is_tidy(path),
    ensures
        left_out(lines, path, is_dir) <==> {
            ||| verdict(lines, path, is_dir) == Some(true)
            ||| exists|i: int|
                0 < i < path.len() && #[trigger] path[i] == '/' && verdict(
                    lines,
                    path.take(i),
                    true,
                ) == Some(true)
        },
{
    assert(path[0] == path[0] && path[path.len() - 1] == path.last());
    lemma_tidy(path);
    assert forall|i: int| 0 < i < path.len() && #[trigger] path[i] == '/' implies said_of(
        lines,
        path.take(i),
        true,
    ) == verdict(lines, path.take(i), true) by {
        let above = path.take(i);
        assert(above[0] == path[0]);
        assert(above.last() == path[i - 1]);
        if path[i - 1] == '/' {
            assert(path[(i - 1) + 1] != '/');
        }
        if path[0] == '.' && i > 1 {
            assert(above[1] == path[1]);
        }
        if path[i - 1] == '.' && i > 1 {
            assert(above[i - 2] == path[i - 2]);
        }
        lemma_tidy(above);
    }
}

/// Behind the start of a `.gitignore` file, each further line adds one rule before the one
/// on `.git`; a line with a backslash next to a `**`, or with more than 250 `{`, adds none.
pub proof fn law_lines_are_rules(lines: Seq<String>, line: String)
    requires
        lines.len() > 0,
    ensures
        ({
            let text = line@;
            let before = rules_of(lines);
            let after = rules_of(lines.push(line));
            let odd = exists|i: int|
                0 <= i < text.len() - 1 && #[trigger] text[i] == '*' && text[i + 1] == '*' && ((i
                    > 0 && text[i - 1] == '\\') || (i + 2 < text.len() && text[i + 2] == '\\'));
            &&& before.len() > 0 && after.len() > 0
            &&& before.last() == ".git/"@ && after.last() == ".git/"@
            &&& after.drop_last() == (if !odd && text.filter(|c: char| c == '{').len() <= 250 {
                before.drop_last().push(text)
            } else {
                before.drop_last()
            })
        }),
{
    let text = line@;
    let read = lines_read(lines.push(line));
    assert(read.drop_last() =~= lines_read(lines));
    assert(read.last() == text);
    lemma_usable(text);
    assert(rules_of(lines).drop_last() =~= usable_lines(lines_read(lines)));
    assert(rules_of(lines.push(line)).drop_last() =~= usable_lines(read));
}

/// The first line loses byte order marks at its start, and is a rule like any other.
pub proof fn law_first_line_is_a_rule(line: String)
    ensures
        rules_of(Seq::empty()) == seq![".git/"@],
        ({
            let text = line@;
            let rules = rules_of(seq![line]);
            &&& (text.len() == 0 || text[0] != '\u{FEFF}') && !text.contains('\\')
                && !text.contains('{') ==> rules == seq![text, ".git/"@]
            &&& rules.last() == ".git/"@
        }),
{
    assert(lines_read(Seq::empty()) =~= Seq::empty());
    assert(rules_of(Seq::empty()) =~= seq![".git/"@]);
    let text = line@;
    let read = lines_read(seq![line]);
    assert(read =~= seq![unmarked(text)]);
    reveal_with_fuel(usable_lines, 2);
    if (text.len() == 0 || text[0] != '\u{FEFF}') && !text.contains('\\') && !text.contains('{') {
        lemma_usable(text);
        lemma_none(text);
        assert forall|i: int| 0 <= i < text.len() implies text[i] != '\\' by {
            assert(text.contains(text[i]));
        }
        assert(read.drop_last() =~= Seq::empty());
        assert(rules_of(seq![line]) =~= seq![text, ".git/"@]);
    }
}

/// Byte order marks are taken off, and nothing else is.
pub proof fn law_byte_order_marks_are_taken_off(line: Seq<char>)
    ensures
        unmarked(seq!['\u{FEFF}'] + line) == unmarked(line),
        line.len() == 0 || line[0] != '\u{FEFF}' ==> unmarked(line) == line,
{
    assert((seq!['\u{FEFF}'] + line).skip(1) =~= line);
}

/// Which lines can be made use of.
proof fn lemma_usable(text: Seq<char>)
    ensures
        is_usable(text) <==> {
            &&& !(exists|i: int|
                0 <= i < text.len() - 1 && #[trigger] text[i] == '*' && text[i + 1] == '*' && ((i
                    > 0 && text[i - 1] == '\\') || (i + 2 < text.len() && text[i + 2] == '\\')))
            &&& text.filter(|c: char| c == '{').len() <= 250
        },
{
    lemma_braces(text);
    if exists|i: int| 0 <= i < text.len() - 1 && #[trigger] touches_stars(text, i) {
        let i = choose|i: int| 0 <= i < text.len() - 1 && #[trigger] touches_stars(text, i);
        assert(text[i] == '*');
    }
    assert forall|i: int|
        0 <= i < text.len() - 1 && #[trigger] text[i] == '*' && text[i + 1] == '*' && ((i > 0
            && text[i - 1] == '\\') || (i + 2 < text.len() && text[i + 2] == '\\')) implies !is_usable(
        text,
    ) by {
        assert(touches_stars(text, i));
    }
}

/// The number of `{` is counted.
proof fn lemma_braces(text: Seq<char>)
    ensures
        braces_in(text) == text.filter(|c: char| c == '{').len(),
    decreases text.len(),
{
    reveal(Seq::filter);
    if text.len() > 0 {
        lemma_braces(text.drop_last());
    }
}

/// Without a `{` there is none to count.
proof fn lemma_none(text: Seq<char>)
    requires
        !text.contains('{'),
    ensures
        text.filter(|c: char| c == '{').len() == 0,
    decreases text.len(),
{
    reveal(Seq::filter);
    if text.len() > 0 {
        assert(text.contains(text.last()));
        assert forall|i: int| 0 <= i < text.drop_last().len() implies text.drop_last()[i] != '{' by {
            assert(text.contains(text[i]));
        }
        lemma_none(text.drop_last());
    }
}

/// A query without a root finds a record if the pattern matches its whole path, and no rule
/// leaves it out.
pub proof fn law_what_is_found_anywhere(q: Query, lines: Seq<String>, v: IndexView, frn: u64)
    requires
        q.root@.len() == 0,
        v.entries.contains_key(frn),
        path_of(v, frn) is Some,
    ensures
        ({
            let full = path_of(v, frn)->0;
            hit_of(rule_of(q, lines), v, frn) == (if glob_accepts(
                with_slashes(q.pattern@),
                true,
                false,
                slashed(full),
            ) {
                Some(HitView { path: full, is_dir: v.entries[frn].is_dir })
            } else {
                None
            })
        }),
{
    let full = path_of(v, frn)->0;
    let rule = rule_of(q, lines);
    assert(rule.prefix =~= Seq::empty());
    law_pattern_is_asked_about_the_path(rule, full);
    assert(full.len() > 0);
}

/// A query below a root finds a record if its path is that of the root, but for the case of
/// letters, a backslash and something that the pattern matches. If ignore rules are to be
/// respected, it is not found if `.git` or one of them leaves it out. Its row is its path,
/// and says whether it is a directory.
pub proof fn law_what_is_found_below_a_root(
    q: Query,
    lines: Seq<String>,
    v: IndexView,
    frn: u64,
)
    requires
        q.root@.len() > 0,
        q.root@.last() != '\\' && q.root@.last() != '/',
        v.entries.contains_key(frn),
        path_of(v, frn) is Some,
    ensures
        ({
            let root = q.root@;
            let n = root.len() as int;
            let full = path_of(v, frn)->0;
            let is_dir = v.entries[frn].is_dir;
            let rel = full.skip(n + 1);
            let below = full.len() > n + 1 && full[n] == '\\' && forall|i: int|
                0 <= i < n ==> lower(#[trigger] full[i]) == lower(root[i]);
            let found = below && glob_accepts(
                with_slashes(q.pattern@),
                true,
                false,
                slashed(rel),
            ) && (q.respect_gitignore ==> !names_git(slashed(rel), is_dir) && !(rules_build(
                rules_of(lines),
            ) && left_out(rules_of(lines), slashed(rel), is_dir)));
            hit_of(rule_of(q, lines), v, frn) == (if found {
                Some(HitView { path: full, is_dir })
            } else {
                None
            })
        }),
{
    let root = q.root@;
    let n = root.len() as int;
    let full = path_of(v, frn)->0;
    let is_dir = v.entries[frn].is_dir;
    let rel = full.skip(n + 1);
    let rule = rule_of(q, lines);
    law_root_is_kept(root, Seq::empty());
    assert(root + Seq::<char>::empty() =~= root);
    assert(rule.prefix == lowered(root));
    let alike = forall|i: int| 0 <= i < n ==> lower(#[trigger] full[i]) == lower(root[i]);
    if full.len() >= n && alike {
        assert(lowered(full.take(n)) =~= lowered(root)) by {
            assert forall|i: int| 0 <= i < n implies lowered(full.take(n))[i]
                == lowered(root)[i] by {
                assert(lower(full[i]) == lower(root[i]));
            }
        }
        if full.len() > n {
            let head = full.take(n);
            if full[n] == '\\' {
                law_root_holds_what_is_below(root, head, rel);
                assert(head + seq!['\\'] + rel =~= full);
                law_pattern_is_asked_about_the_path(rule, rel);
                assert(replaced(rel, '\\', '/') =~= slashed(rel));
                law_only_git_is_left_out_as_git(slashed(rel), is_dir);
            } else {
                law_root_holds_what_is_below(root, head, full.skip(n));
                assert(head + full.skip(n) =~= full);
            }
        } else {
            assert(full.take(n) =~= full);
            law_root_holds_what_is_below(root, full, Seq::empty());
        }
    } else {
        if full.len() < n {
            law_root_holds_nothing_else(full, root, full.len() as int);
        } else {
            let i = choose|i: int| 0 <= i < n && lower(#[trigger] full[i]) != lower(root[i]);
            law_root_holds_nothing_else(full, root, i);
        }
    }
}

/// A root that is nothing but separators holds every drive whole; ignore rules, if they are
/// to be respected, are asked about the whole path.
pub proof fn law_what_is_found_below_separators(
    q: Query,
    lines: Seq<String>,
    v: IndexView,
    frn: u64,
)
    requires
        q.root@.len() > 0,
        forall|i: int|
            0 <= i < q.root@.len() ==> #[trigger] q.root@[i] == '\\' || q.root@[i] == '/',
        v.entries.contains_key(frn),
        path_of(v, frn) is Some,
    ensures
        ({
            let full = path_of(v, frn)->0;
            let is_dir = v.entries[frn].is_dir;
            let found = glob_accepts(with_slashes(q.pattern@), true, false, slashed(full)) && (
            q.respect_gitignore ==> !names_git(slashed(full), is_dir) && !(rules_build(
                rules_of(lines),
            ) && left_out(rules_of(lines), slashed(full), is_dir)));
            hit_of(rule_of(q, lines), v, frn) == (if found {
                Some(HitView { path: full, is_dir })
            } else {
                None
            })
        }),
{
    let full = path_of(v, frn)->0;
    let rule = rule_of(q, lines);
    law_root_is_kept(Seq::empty(), q.root@);
    assert(Seq::<char>::empty() + q.root@ =~= q.root@);
    assert(rule.prefix =~= Seq::empty());
    law_pattern_is_asked_about_the_path(rule, full);
    assert(replaced(full, '\\', '/') =~= slashed(full));
    law_only_git_is_left_out_as_git(slashed(full), v.entries[frn].is_dir);
    assert(full.len() > 0);
}

/// A number that no record has, and a record whose path is not known, are not found.
pub proof fn law_what_has_no_path_is_not_found(rule: Rule, v: IndexView, frn: u64)
    requires
        !v.entries.contains_key(frn) || path_of(v, frn) is None,
    ensures
        hit_of(rule, v, frn) is None,
{
}

/// Separators at the end of a root change nothing in what is asked.
pub proof fn law_ends_of_the_root_change_nothing(
    one: Query,
    other: Query,
    lines: Seq<String>,
    c: char,
)
    requires
        one.root@.len() > 0,
        c == '\\' || c == '/',
        other.root@ == one.root@.push(c),
        other.pattern@ == one.pattern@,
        other.respect_gitignore == one.respect_gitignore,
    ensures
        rule_of(other, lines) == rule_of(one, lines),
{
    assert(other.root@.drop_last() =~= one.root@);
}

} // verus!
