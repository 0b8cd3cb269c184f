//! One query against one index: which records it finds, in which order they are
//! looked at, and when it stops.

use globset::GlobSet;
use ignore::gitignore::Gitignore;
use vstd::prelude::*;
#[allow(unused_imports)]
use vstd::std_specs::iter::IteratorSpec;

#[allow(unused_imports)]
use crate::buckets::{lemma_push_has, lemma_push_unique};
use crate::gitignore::{build_gitignore, is_in_git_dir, is_left_out};
#[allow(unused_imports)]
use crate::gitignore::{in_git_dir, left_out, lines_in, root_in, rules_build, rules_of};
use crate::glob::{
    compile_glob, lower_tail, matches_glob, nests_too_deep, put_slashes, replace_char,
};
#[allow(unused_imports)]
use crate::glob::{
    compiles_in_any_case, fixed_ext, glob_accepts, glob_error, globs_in, has_fixed_end, is_literal,
    is_shallow, lemma_tail, lemma_with_slashes, matches_in_any_case, some_accepts, tail_of,
    with_slashes,
};
use crate::mft::Index;
#[allow(unused_imports)]
use crate::mft::{
    drive_root, lineage, path_of, pinned_order, IndexView, MAX_DEPTH, ROOT_FRN,
};
#[allow(unused_imports)]
use crate::query_laws::law_pattern_is_kept;
#[allow(unused_imports)]
use crate::search_laws::law_counts_fit;
use crate::text::{after_last, chars_of, ends_like, lower_char, string_of, upper_char};
#[allow(unused_imports)]
use crate::text::{
    joined, last_of, lemma_dots_of_lowered, lemma_lower_dot, lemma_same_letters, lower, lowered,
    maybe, replaced, upper,
};

verus! {

broadcast use vstd::std_specs::hash::group_hash_axioms;

/// Letters of a pattern match in either case.
pub const CASE_INSENSITIVE: bool = true;

/// A wildcard matches a separator too.
pub const LITERAL_SEPARATOR: bool = false;

/// The message with which a pattern is refused whose alternatives are nested too deep.
pub const TOO_DEEP: &'static str = "error parsing glob: alternates are nested too deeply";

/// The drive that is searched where the root names none.
pub const DEFAULT_DRIVE: char = 'C';

/// A single query result row.
#[derive(Clone)]
pub struct Hit {
    pub path: String,
    pub is_dir: bool,
}

/// A result row with its path as text.
pub ghost struct HitView {
    pub path: Seq<char>,
    pub is_dir: bool,
}

impl View for Hit {
    type V = HitView;

    open spec fn view(&self) -> HitView {
        HitView { path: self.path@, is_dir: self.is_dir }
    }
}

/// The rows of a result, as views.
pub open spec fn hit_views(hits: Seq<Hit>) -> Seq<HitView> {
    Seq::new(hits.len(), |i: int| hits[i]@)
}

/// What a query asks of a record.
pub ghost struct Rule {
    /// Lowercased root directory; empty for the whole volume.
    pub prefix: Seq<char>,
    /// The pattern, matched against the path relative to the root.
    pub pattern: Seq<char>,
    /// Directories named `.git`, and what lies inside them, are left out.
    pub spare_git: bool,
    /// The lines of the ignore rules, where they apply.
    pub ignore: Option<Seq<Seq<char>>>,
}

/// A path separator.
pub open spec fn is_slash(c: char) -> bool {
    c == '\\' || c == '/'
}

/// `root` without the separators at its end.
pub open spec fn trimmed(root: Seq<char>) -> Seq<char>
    decreases root.len(),
{
    if root.len() > 0 && is_slash(root.last()) {
        trimmed(root.drop_last())
    } else {
        root
    }
}

/// The drive letter of a path like `D:\foo`, in upper case.
pub open spec fn drive_in(path: Seq<char>) -> Option<char> {
    if path.len() >= 2 && path[1] == ':' && ('a' <= path[0] <= 'z' || 'A' <= path[0] <= 'Z') {
        Some(upper(path[0]))
    } else {
        None
    }
}

/// The drive that a query with this root searches.
pub open spec fn drive_searched(root: Seq<char>) -> char {
    match drive_in(root) {
        Some(drive) => drive,
        None => DEFAULT_DRIVE,
    }
}

/// What follows the directory `prefix` in the path `full`: everything, if `prefix`
/// is empty, and nothing, if `full` is that directory. `None` if `full` is not in
/// it. Letters compare in either case.
pub open spec fn relative(full: Seq<char>, prefix: Seq<char>) -> Option<Seq<char>> {
    let n = prefix.len() as int;
    if n == 0 {
        Some(full)
    } else if full.len() < n || lowered(full.take(n)) != prefix {
        None
    } else if full.len() == n {
        Some(Seq::empty())
    } else if full[n] == '\\' {
        Some(full.skip(n + 1))
    } else {
        None
    }
}

/// The message with which a pattern is refused, if it is.
pub open spec fn pattern_error(pattern: Seq<char>) -> Option<Seq<char>> {
    if is_shallow(with_slashes(pattern)) {
        glob_error(with_slashes(pattern), CASE_INSENSITIVE, LITERAL_SEPARATOR)
    } else {
        Some(TOO_DEEP@)
    }
}

/// Every other spelling of a pattern that is not nested too deep compiles if this one is
/// not refused, and not if it is.
pub open spec fn refused_in_any_case(pattern: Seq<char>, refused: bool) -> bool {
    is_shallow(with_slashes(pattern)) ==> compiles_in_any_case(
        with_slashes(pattern),
        LITERAL_SEPARATOR,
        !refused,
    )
}

/// Ignore rules apply only below a root.
pub open spec fn ignores(q: Query) -> bool {
    q.respect_gitignore && q.root@.len() > 0
}

/// What a query asks of a record, where `lines` are those of the `.gitignore` file
/// in its root. Ignore rules that cannot be built leave out nothing; `.git` is left
/// out all the same.
pub open spec fn rule_of(q: Query, lines: Seq<String>) -> Rule {
    Rule {
        prefix: lowered(trimmed(q.root@)),
        pattern: with_slashes(q.pattern@),
        spare_git: ignores(q),
        ignore: if ignores(q) && rules_build(rules_of(lines)) {
            Some(rules_of(lines))
        } else {
            None
        },
    }
}

/// The pattern matches a path relative to the root.
pub open spec fn pattern_accepts(rule: Rule, rel: Seq<char>) -> bool {
    glob_accepts(rule.pattern, CASE_INSENSITIVE, LITERAL_SEPARATOR, replaced(rel, '\\', '/'))
}

/// A relative path passes: it is not that of the root itself, the pattern matches
/// it, and neither the rule on `.git` nor an ignore rule leaves it out.
pub open spec fn passes_path(rule: Rule, rel: Seq<char>, is_dir: bool) -> bool {
    let slashed = replaced(rel, '\\', '/');
    &&& rel.len() > 0
    &&& pattern_accepts(rule, rel)
    &&& rule.spare_git ==> !in_git_dir(slashed, is_dir)
    &&& rule.ignore matches Some(lines) ==> !left_out(lines, slashed, is_dir)
}

/// The row that the record `frn` yields, if the query finds it.
pub open spec fn hit_of(rule: Rule, v: IndexView, frn: u64) -> Option<HitView> {
    if !v.entries.contains_key(frn) {
        None
    } else {
        let is_dir = v.entries[frn].is_dir;
        match path_of(v, frn) {
            Some(full) => match relative(full, rule.prefix) {
                Some(rel) => if passes_path(rule, rel, is_dir) {
                    Some(HitView { path: full, is_dir })
                } else {
                    None
                },
                None => None,
            },
            None => None,
        }
    }
}

/// The rows that the records of `order` yield, in that order.
pub open spec fn hits_in(rule: Rule, v: IndexView, order: Seq<u64>) -> Seq<HitView>
    decreases order.len(),
{
    if order.len() == 0 {
        Seq::empty()
    } else {
        let before = hits_in(rule, v, order.drop_last());
        match hit_of(rule, v, order.last()) {
            Some(hit) => before.push(hit),
            None => before,
        }
    }
}

/// Those numbers of a list that belong to a record of the index, in their order.
pub open spec fn with_entries(v: IndexView, list: Seq<u64>) -> Seq<u64>
    decreases list.len(),
{
    if list.len() == 0 {
        Seq::empty()
    } else {
        let before = with_entries(v, list.drop_last());
        if v.entries.contains_key(list.last()) {
            before.push(list.last())
        } else {
            before
        }
    }
}

/// The order in which a query looks at the records: that of the inverted index where
/// the pattern fixes an extension, and that of `scan` where it fixes none. Numbers in
/// the inverted index that no record has are passed over.
pub open spec fn order_of(rule: Rule, v: IndexView, scan: Seq<u64>) -> Seq<u64> {
    match fixed_ext(rule.pattern) {
        Some(ext) => with_entries(v, pinned_order(v, ext)),
        None => scan,
    }
}

/// What a search yields.
pub struct Found {
    pub hits: Vec<Hit>,
    pub scanned: usize,
    pub truncated: bool,
}

/// The first `max` rows, or all if there are no more.
pub open spec fn first_rows(rows: Seq<HitView>, max: usize) -> Seq<HitView> {
    if rows.len() <= max {
        rows
    } else {
        rows.take(max as int)
    }
}

/// The number of rows at which a search ends: as many as may be shown, but at least one,
/// so that a search which may show none still tells whether there is any.
pub open spec fn enough(max: usize) -> nat {
    if max == 0 {
        1
    } else {
        max as nat
    }
}

/// `found` is what a search along `order` yields: of the rows of the records looked at,
/// as many as may be shown. The records looked at are all of them, unless enough rows
/// were found, and no more than it takes to find enough.
pub open spec fn is_search(
    rule: Rule,
    v: IndexView,
    order: Seq<u64>,
    max: usize,
    found: Found,
) -> bool {
    let rows = hits_in(rule, v, order.take(found.scanned as int));
    &&& found.scanned <= order.len()
    &&& hit_views(found.hits@) == first_rows(rows, max)
    &&& found.truncated == (rows.len() >= enough(max))
    &&& !found.truncated ==> found.scanned == order.len()
    &&& found.truncated ==> hits_in(rule, v, order.take(found.scanned - 1)).len() < enough(max)
}

/// `scan` lists the records of an index, each once.
pub open spec fn is_scan(v: IndexView, scan: Seq<u64>) -> bool {
    scan.no_duplicates() && scan.to_set() == v.entries.dom()
}

/// `found` is what the query yields on the index, if `scan` is the order in which all
/// records are walked. No record is looked at twice.
pub open spec fn is_answer(
    rule: Rule,
    v: IndexView,
    scan: Seq<u64>,
    max: usize,
    found: Found,
) -> bool {
    &&& is_scan(v, scan)
    &&& order_of(rule, v, scan).no_duplicates()
    &&& is_search(rule, v, order_of(rule, v, scan), max, found)
}

/// How the counts of an answer fit together: no more rows are shown than the cap allows,
/// nor more than records were looked at, and no more records were looked at than there
/// are. The answer is cut off where it has as many rows as the cap allows; if it allows
/// none, where a record passes the query. If it is not cut off and the pattern fixes no
/// extension, every record was looked at.
pub open spec fn counts_fit(rule: Rule, v: IndexView, max: usize, found: Found) -> bool {
    &&& found.hits@.len() <= max
    &&& found.hits@.len() <= found.scanned <= v.entries.dom().len()
    &&& max >= 1 ==> (found.truncated <==> found.hits@.len() == max)
    &&& max == 0 && found.truncated ==> exists|frn: u64|
        (#[trigger] hit_of(rule, v, frn)) is Some
    &&& fixed_ext(rule.pattern) is None && !found.truncated ==> found.scanned
        == v.entries.dom().len()
}

/// What holds of every pattern that compiles: what it matches ends in the literal
/// characters that it ends with, and the case in which it is written does not matter.
pub open spec fn is_sound(rule: Rule) -> bool {
    &&& has_fixed_end(rule.pattern, CASE_INSENSITIVE, LITERAL_SEPARATOR)
    &&& compiles_in_any_case(rule.pattern, LITERAL_SEPARATOR, true)
    &&& matches_in_any_case(rule.pattern, LITERAL_SEPARATOR)
}

/// A row for a directory named `.git` below the root, or for what lies inside one.
pub open spec fn inside_git(prefix: Seq<char>, hit: HitView) -> bool {
    relative(hit.path, prefix) matches Some(rel) && in_git_dir(
        replaced(rel, '\\', '/'),
        hit.is_dir,
    )
}

/// No row is one of `.git`, if that is left out.
pub open spec fn spares_git(rule: Rule, hits: Seq<HitView>) -> bool {
    rule.spare_git ==> forall|i: int|
        0 <= i < hits.len() ==> !inside_git(rule.prefix, #[trigger] hits[i])
}

/// Parameters for a fast_glob query.
pub struct Query<'a> {
    /// Root directory to scope results to, e.g. `D:\Workspace_local\project`.
    /// Empty means "no scoping" (whole indexed volume).
    pub root: &'a str,
    /// Glob pattern matched against the path relative to root, e.g. `**/*.swift`.
    pub pattern: &'a str,
    pub max_results: usize,
    pub respect_gitignore: bool,
}

/// A compiled query.
pub struct Matcher {
    prefix: Vec<char>,
    pattern: String,
    globs: GlobSet,
    /// Lowercased literal characters that the pattern ends with.
    tail: Vec<char>,
    /// Lowercased extension that the pattern fixes.
    ext: Option<String>,
    spare_git: bool,
    ignore: Option<Gitignore>,
}

impl View for Matcher {
    type V = Rule;

    closed spec fn view(&self) -> Rule {
        Rule {
            prefix: self.prefix@,
            pattern: self.pattern@,
            spare_git: self.spare_git,
            ignore: match self.ignore {
                Some(rules) => Some(lines_in(rules)),
                None => None,
            },
        }
    }
}

/// Extract the drive letter from a path like `D:\foo`.
pub fn drive_of(path: &str) -> (drive: Option<char>)
    ensures
        drive == drive_in(path@),
{
    let chars = chars_of(path);
    if chars.len() < 2 || chars[1] != ':' {
        return None;
    }
    let c = chars[0];
    if ('a' <= c && c <= 'z') || ('A' <= c && c <= 'Z') {
        Some(upper_char(c))
    } else {
        None
    }
}

/// The lowercased characters of `root`, without the separators at its end.
fn prefix_chars(root: &str) -> (prefix: Vec<char>)
    ensures
        prefix@ == lowered(trimmed(root@)),
{
    let chars = chars_of(root);
    let mut n: usize = chars.len();
    assert(root@.take(n as int) == root@);
    while n > 0 && (chars[n - 1] == '\\' || chars[n - 1] == '/')
        invariant
            n <= chars@.len(),
            chars@ == root@,
            trimmed(root@) == trimmed(root@.take(n as int)),
        decreases n,
    {
        assert(root@.take(n as int).drop_last() == root@.take(n - 1));
        n -= 1;
    }
    let mut prefix: Vec<char> = Vec::new();
    let mut i: usize = 0;
    while i < n
        invariant
            i <= n <= chars@.len(),
            chars@ == root@,
            prefix@ == lowered(root@.take(n as int)).take(i as int),
        decreases n - i,
    {
        prefix.push(lower_char(chars[i]));
        i += 1;
        assert(prefix@ =~= lowered(root@.take(n as int)).take(i as int));
    }
    assert(prefix@ =~= lowered(root@.take(n as int)));
    prefix
}

/// Lowercased root with trailing slashes trimmed, for prefix comparison.
pub fn normalize_prefix(root: &str) -> (prefix: String)
    ensures
        prefix@ == lowered(trimmed(root@)),
{
    let chars = prefix_chars(root);
    assert(chars@.subrange(0, chars@.len() as int) == chars@);
    string_of(&chars, 0, chars.len())
}

impl Matcher {
    /// The compiled parts are those of the texts, and the ignore rules are relative
    /// to the root.
    #[verifier::type_invariant]
    spec fn wf(self) -> bool {
        &&& globs_in(self.globs) == seq![(self.pattern@, CASE_INSENSITIVE, LITERAL_SEPARATOR)]
        &&& has_fixed_end(self.pattern@, CASE_INSENSITIVE, LITERAL_SEPARATOR)
        &&& self.tail@ == lowered(tail_of(self.pattern@))
        &&& maybe(self.ext) == fixed_ext(self.pattern@)
        &&& self.ignore matches Some(rules) ==> root_in(rules).len() == 0
    }

    /// Compiles a query. `lines` are those of the `.gitignore` file in its root, if
    /// there is one. A pattern that does not compile is refused with the message.
    pub fn new(q: &Query, lines: &Vec<String>) -> (r: Result<Matcher, String>)
        ensures
            r is Ok <==> pattern_error(q.pattern@) is None,
            r matches Ok(matcher) ==> matcher@ == rule_of(*q, lines@) && is_sound(matcher@),
            r matches Err(message) ==> Some(message@) == pattern_error(q.pattern@),
            refused_in_any_case(q.pattern@, r is Err),
            r matches Ok(matcher) ==> {
                let compiled = matcher@.pattern;
                &&& compiled.len() == q.pattern@.len()
                &&& forall|i: int|
                    0 <= i < compiled.len() && q.pattern@[i] != '\\' ==> #[trigger] compiled[i]
                        == q.pattern@[i]
                &&& forall|i: int|
                    0 <= i < compiled.len() && q.pattern@[i] == '\\' ==> #[trigger] compiled[i]
                        == '\\' || compiled[i] == '/'
            },
    {
        let pattern = put_slashes(q.pattern);
        proof {
            lemma_with_slashes(q.pattern@);
            law_pattern_is_kept(q.pattern@);
        }
        if nests_too_deep(pattern.as_str()) {
            return Err(TOO_DEEP.to_owned());
        }
        let globs = match compile_glob(pattern.as_str(), CASE_INSENSITIVE, LITERAL_SEPARATOR) {
            Ok(globs) => globs,
            Err(message) => {
                return Err(message);
            },
        };
        let tail = lower_tail(pattern.as_str());
        let ext = ext_in(&tail);
        proof {
            lemma_ext_of_lowered(pattern@);
        }
        let spare_git = q.respect_gitignore && !q.root.is_empty();
        let ignore = if spare_git {
            build_gitignore(lines)
        } else {
            None
        };
        Ok(Matcher { prefix: prefix_chars(q.root), pattern, globs, tail, ext, spare_git, ignore })
    }

    /// Whether a name ends in the literal characters that the pattern ends with. No
    /// other name is worth a look at its path.
    fn may_match(&self, name: &str) -> (r: bool)
        ensures
            r == lowered(tail_of(self@.pattern)).is_suffix_of(lowered(name@)),
    {
        proof {
            use_type_invariant(self);
        }
        ends_like(&chars_of(name), &self.tail)
    }

    /// What follows the root directory in `full`.
    fn relative_to_root(&self, full: &Vec<char>) -> (from: Option<usize>)
        ensures
            from is Some <==> relative(full@, self@.prefix) is Some,
            from matches Some(n) ==> n <= full@.len() && Some(full@.skip(n as int)) == relative(
                full@,
                self@.prefix,
            ),
    {
        let n = self.prefix.len();
        if n == 0 {
            assert(full@.skip(0) == full@);
            return Some(0);
        }
        if full.len() < n {
            return None;
        }
        let mut i: usize = 0;
        while i < n
            invariant
                i <= n == self.prefix@.len(),
                n <= full@.len(),
                lowered(full@.take(n as int)).take(i as int) == self.prefix@.take(i as int),
            decreases n - i,
        {
            if lower_char(full[i]) != self.prefix[i] {
                assert(lowered(full@.take(n as int))[i as int] != self.prefix@[i as int]);
                return None;
            }
            i += 1;
            assert(lowered(full@.take(n as int)).take(i as int) == lowered(
                full@.take(n as int),
            ).take(i - 1).push(lower(full@[i - 1])));
            assert(self.prefix@.take(i as int) == self.prefix@.take(i - 1).push(
                self.prefix@[i - 1],
            ));
        }
        assert(lowered(full@.take(n as int)) =~= self.prefix@) by {
            assert(lowered(full@.take(n as int)).take(n as int) =~= lowered(full@.take(n as int)));
            assert(self.prefix@.take(n as int) =~= self.prefix@);
        }
        if full.len() == n {
            assert(full@.skip(n as int) =~= Seq::empty());
            Some(n)
        } else if full[n] == '\\' {
            Some(n + 1)
        } else {
            None
        }
    }

    /// Whether the pattern matches a path relative to the root. The case of letters
    /// makes no difference.
    pub fn accepts(&self, rel: &str) -> (r: bool)
        ensures
            r == pattern_accepts(self@, rel@),
            forall|other: Seq<char>|
                lowered(other) == lowered(rel@) ==> r == #[trigger] pattern_accepts(self@, other),
    {
        proof {
            use_type_invariant(self);
        }
        let slashed = slash_string(rel);
        let r = matches_glob(&self.globs, slashed.as_str());
        proof {
            lemma_one_glob(globs_in(self.globs), self.pattern@, slashed@);
            assert forall|other: Seq<char>| lowered(other) == lowered(rel@) implies r
                == #[trigger] pattern_accepts(self@, other) by {
                let spelt = replaced(other, '\\', '/');
                lemma_slashes_keep_letters(other, rel@);
                lemma_one_glob(globs_in(self.globs), self.pattern@, spelt);
                assert(some_accepts(globs_in(self.globs), spelt) == r);
            }
        }
        r
    }

    /// Whether a path relative to the root is left out: by the rule on `.git`, or by the
    /// ignore rules, where they apply.
    fn leaves_out(&self, rel: &str, is_dir: bool) -> (r: bool)
        ensures
            r == ({
                let slashed = replaced(rel@, '\\', '/');
                ||| self@.spare_git && in_git_dir(slashed, is_dir)
                ||| self@.ignore matches Some(lines) && left_out(lines, slashed, is_dir)
            }),
    {
        proof {
            use_type_invariant(self);
        }
        let slashed = slash_string(rel);
        if self.spare_git && is_in_git_dir(slashed.as_str(), is_dir) {
            return true;
        }
        match &self.ignore {
            Some(rules) => is_left_out(rules, slashed.as_str(), is_dir),
            None => false,
        }
    }

    /// The row that the record `frn` yields, if the query finds it.
    pub fn examine(&self, index: &Index, frn: u64) -> (hit: Option<Hit>)
        ensures
            hit is Some <==> hit_of(self@, index@, frn) is Some,
            hit matches Some(h) ==> Some(h@) == hit_of(self@, index@, frn),
            hit matches Some(h) ==> spares_git(self@, seq![h@]),
    {
        proof {
            use_type_invariant(self);
        }
        let entry = match index.entries.get(&frn) {
            Some(entry) => entry,
            None => {
                return None;
            },
        };
        assert(index@.entries[frn] == entry@);
        if !self.may_match(entry.name.as_str()) {
            proof {
                if hit_of(self@, index@, frn) is Some {
                    law_prefilter_loses_nothing(self@, index@, frn);
                }
            }
            return None;
        }
        let full = match index.full_path(frn) {
            Some(full) => full,
            None => {
                return None;
            },
        };
        let chars = chars_of(full.as_str());
        let from = match self.relative_to_root(&chars) {
            Some(from) => from,
            None => {
                return None;
            },
        };
        assert(chars@.subrange(from as int, chars@.len() as int) == chars@.skip(from as int));
        let rel = string_of(&chars, from, chars.len());
        let is_root = rel.as_str().is_empty();
        let matched = !is_root && self.accepts(rel.as_str());
        let left_out = matched && self.leaves_out(rel.as_str(), entry.is_dir);
        row_for(full, entry.is_dir, is_root, matched, left_out)
    }

    /// Looks at the records of `order`, one after the other, until enough rows are
    /// found.
    pub fn search(&self, index: &Index, order: &Vec<u64>, max: usize) -> (found: Found)
        ensures
            is_search(self@, index@, order@, max, found),
            spares_git(self@, hit_views(found.hits@)),
    {
        let mut tally = Tally::new(max);
        assert(hit_views(tally.hits@) =~= hits_in(self@, index@, order@.take(0)));
        while tally.scanned < order.len() && !tally.is_full()
            invariant
                tally.max == max,
                tally.scanned <= order@.len(),
                ({
                    let rows = hits_in(self@, index@, order@.take(tally.scanned as int));
                    &&& hit_views(tally.hits@) == first_rows(rows, max)
                    &&& tally.full == (rows.len() >= enough(max))
                }),
                tally.full ==> hits_in(self@, index@, order@.take(tally.scanned - 1)).len()
                    < enough(max),
                spares_git(self@, hit_views(tally.hits@)),
            decreases order@.len() - tally.scanned,
        {
            let ghost before = tally.scanned as int;
            let ghost rows = hits_in(self@, index@, order@.take(before));
            self.visit(index, order[tally.scanned], &mut tally);
            proof {
                assert(order@.take(before + 1).drop_last() == order@.take(before));
                if let Some(hit) = hit_of(self@, index@, order@[before]) {
                    lemma_one_more_row(rows, hit, max);
                }
            }
        }
        tally.finish()
    }

    /// Looks at one more record.
    fn visit(&self, index: &Index, frn: u64, tally: &mut Tally)
        requires
            old(tally).scanned < usize::MAX,
            spares_git(self@, hit_views(old(tally).hits@)),
        ensures
            hit_views(final(tally).hits@) == (match hit_of(self@, index@, frn) {
                Some(hit) => if old(tally).hits@.len() < old(tally).max {
                    hit_views(old(tally).hits@).push(hit)
                } else {
                    hit_views(old(tally).hits@)
                },
                None => hit_views(old(tally).hits@),
            }),
            final(tally).scanned == old(tally).scanned + 1,
            final(tally).max == old(tally).max,
            final(tally).full == (old(tally).full || hit_of(self@, index@, frn) is Some
                && final(tally).hits@.len() >= old(tally).max),
            spares_git(self@, hit_views(final(tally).hits@)),
    {
        let row = self.examine(index, frn);
        let ghost seen = row;
        tally.take(row);
        proof {
            if let Some(hit) = seen {
                assert(seq![hit@][0] == hit@);
                if old(tally).hits@.len() < old(tally).max {
                    assert(hit_views(tally.hits@) =~= hit_views(old(tally).hits@).push(hit@));
                }
            }
        }
    }

    /// Looks at all records, in the order in which the hash map is walked, until enough
    /// rows are found.
    pub fn scan(&self, index: &Index, max: usize) -> (found: Found)
        ensures
            is_scan(index@, index.walk().remaining().unref()),
            is_search(self@, index@, index.walk().remaining().unref(), max, found),
            spares_git(self@, hit_views(found.hits@)),
    {
        let mut tally = Tally::new(max);
        let total = index.entries.len();
        assert(index@.entries.dom() =~= index.entries@.dom());
        for frn in it: index.entries.keys()
            invariant
                it.seq() == index.walk().remaining(),
                it.seq().unref().to_set() == index@.entries.dom(),
                it.seq().unref().no_duplicates(),
                it.seq().len() == total,
                tally.max == max,
                tally.scanned == it.index(),
                !tally.full,
                ({
                    let rows = hits_in(
                        self@,
                        index@,
                        it.seq().unref().take(tally.scanned as int),
                    );
                    &&& hit_views(tally.hits@) == first_rows(rows, max)
                    &&& rows.len() < enough(max)
                }),
                spares_git(self@, hit_views(tally.hits@)),
        {
            let ghost order = it.seq().unref();
            let ghost before = tally.scanned as int;
            let ghost rows = hits_in(self@, index@, order.take(before));
            self.visit(index, *frn, &mut tally);
            proof {
                assert(order.take(before + 1).drop_last() == order.take(before));
                if let Some(hit) = hit_of(self@, index@, *frn) {
                    lemma_one_more_row(rows, hit, max);
                }
            }
            if tally.is_full() {
                return tally.finish();
            }
        }
        let found = tally.finish();
        proof {
            let order = index.walk().remaining().unref();
            assert(order.take(found.scanned as int) =~= order);
        }
        found
    }

    /// Runs the query on an index: along the inverted index where the pattern fixes an
    /// extension, else over all records.
    pub fn find(&self, index: &Index, max: usize) -> (found: Found)
        ensures
            is_answer(self@, index@, index.walk().remaining().unref(), max, found),
            spares_git(self@, hit_views(found.hits@)),
            counts_fit(self@, index@, max, found),
    {
        proof {
            use_type_invariant(self);
            assert(index@.entries.dom() =~= index.entries@.dom());
        }
        let found = match &self.ext {
            Some(ext) => {
                let listed = index.by_ext.both(ext.as_str());
                let order = keep_records(index, &listed);
                proof {
                    lemma_with_entries(index@, listed@);
                }
                self.search(index, &order, max)
            },
            None => self.scan(index, max),
        };
        proof {
            law_counts_fit(self@, index@, index.walk().remaining().unref(), max, found);
        }
        found
    }
}

/// What one more row comes to, where there were not enough.
proof fn lemma_one_more_row(rows: Seq<HitView>, hit: HitView, max: usize)
    requires
        rows.len() < enough(max),
    ensures
        first_rows(rows, max) == rows,
        first_rows(rows.push(hit), max) == (if max == 0 {
            rows
        } else {
            rows.push(hit)
        }),
{
    if max == 0 {
        assert(rows.push(hit).take(0) =~= rows);
    }
}

/// Those numbers of a list that belong to a record of the index.
fn keep_records(index: &Index, list: &Vec<u64>) -> (kept: Vec<u64>)
    ensures
        kept@ == with_entries(index@, list@),
{
    let mut kept: Vec<u64> = Vec::new();
    let mut i: usize = 0;
    assert(index@.entries.dom() =~= index.entries@.dom());
    while i < list.len()
        invariant
            i <= list@.len(),
            index@.entries.dom() == index.entries@.dom(),
            kept@ == with_entries(index@, list@.take(i as int)),
        decreases list@.len() - i,
    {
        let frn = list[i];
        if index.entries.contains_key(&frn) {
            kept.push(frn);
        }
        i += 1;
        assert(list@.take(i as int).drop_last() == list@.take(i - 1));
    }
    assert(list@.take(i as int) == list@);
    kept
}

/// What is kept of a list: its numbers that belong to records. If none stands there twice,
/// none is kept twice.
pub proof fn lemma_with_entries(v: IndexView, list: Seq<u64>)
    ensures
        forall|frn: u64| #[trigger]
            with_entries(v, list).contains(frn) <==> list.contains(frn) && v.entries.contains_key(
                frn,
            ),
        list.no_duplicates() ==> with_entries(v, list).no_duplicates(),
    decreases list.len(),
{
    if list.len() > 0 {
        let rest = list.drop_last();
        let last = list.last();
        let before = with_entries(v, rest);
        lemma_with_entries(v, rest);
        assert(list == rest.push(last));
        assert forall|frn: u64| #[trigger] with_entries(v, list).contains(frn) <==> list.contains(
            frn,
        ) && v.entries.contains_key(frn) by {
            lemma_push_has(rest, last, frn);
            lemma_push_has(before, last, frn);
        }
        if list.no_duplicates() {
            assert(rest.no_duplicates());
            if rest.contains(last) {
                assert(list[rest.index_of(last)] == list[list.len() - 1]);
            }
            lemma_push_unique(before, last);
        }
    }
}

/// An empty root is the empty prefix.
pub proof fn lemma_empty_root(root: Seq<char>)
    requires
        root.len() == 0,
    ensures
        lowered(trimmed(root)) == Seq::<char>::empty(),
{
    assert(lowered(trimmed(root)) =~= Seq::empty());
}

/// The rows found so far that may be shown, and the number of records looked at for
/// them.
pub struct Tally {
    pub hits: Vec<Hit>,
    pub scanned: usize,
    /// The number of rows that may be shown.
    pub max: usize,
    /// Enough rows were found.
    pub full: bool,
}

impl Tally {
    /// Nothing found yet.
    pub fn new(max: usize) -> (tally: Self)
        ensures
            tally.hits@ == Seq::<Hit>::empty(),
            tally.scanned == 0,
            tally.max == max,
            !tally.full,
    {
        Tally { hits: Vec::new(), scanned: 0, max, full: false }
    }

    /// Whether enough rows were found.
    pub fn is_full(&self) -> (r: bool)
        ensures
            r == self.full,
    {
        self.full
    }

    /// Takes up what looking at one more record came to. A row that may not be shown is
    /// only noted.
    pub fn take(&mut self, row: Option<Hit>)
        requires
            old(self).scanned < usize::MAX,
        ensures
            final(self).hits@ == (match row {
                Some(hit) => if old(self).hits@.len() < old(self).max {
                    old(self).hits@.push(hit)
                } else {
                    old(self).hits@
                },
                None => old(self).hits@,
            }),
            final(self).scanned == old(self).scanned + 1,
            final(self).max == old(self).max,
            final(self).full == (old(self).full || row is Some && final(self).hits@.len()
                >= old(self).max),
    {
        self.scanned += 1;
        if let Some(hit) = row {
            if self.hits.len() < self.max {
                self.hits.push(hit);
            }
            if self.hits.len() >= self.max {
                self.full = true;
            }
        }
    }

    /// Ends the search, which is cut off if enough rows were found.
    pub fn finish(self) -> (found: Found)
        ensures
            found.hits@ == self.hits@,
            found.scanned == self.scanned,
            found.truncated == self.full,
    {
        Found { hits: self.hits, scanned: self.scanned, truncated: self.full }
    }
}

/// The row of a record whose name has passed, from what its path came to: whether the
/// root is all that there is of it, whether the pattern matches what follows the root,
/// and whether the ignore rules leave it out.
pub fn row_for(
    full: String,
    is_dir: bool,
    is_root: bool,
    matched: bool,
    left_out: bool,
) -> (row: Option<Hit>)
    ensures
        row is Some <==> !is_root && matched && !left_out,
        row matches Some(hit) ==> hit.path == full && hit.is_dir == is_dir,
{
    if is_root || !matched || left_out {
        None
    } else {
        Some(Hit { path: full, is_dir })
    }
}

/// The extension in lowercased literal characters, if there is one.
fn ext_in(tail: &Vec<char>) -> (ext: Option<String>)
    ensures
        ext is Some <==> 0 <= last_of(tail@, '.') && last_of(tail@, '.') + 1 < tail@.len(),
        ext matches Some(e) ==> e@ == tail@.skip(last_of(tail@, '.') + 1),
{
    let from = after_last(tail, '.');
    if from == 0 || from >= tail.len() {
        return None;
    }
    assert(tail@.subrange(from as int, tail@.len() as int) == tail@.skip(from as int));
    Some(string_of(tail, from, tail.len()))
}

/// The extension that a pattern fixes, read off the lowercased characters.
proof fn lemma_ext_of_lowered(pattern: Seq<char>)
    ensures
        ({
            let tail = lowered(tail_of(pattern));
            let dot = last_of(tail, '.');
            fixed_ext(pattern) == (if 0 <= dot && dot + 1 < tail.len() {
                Some(tail.skip(dot + 1))
            } else {
                None
            })
        }),
{
    let tail = tail_of(pattern);
    lemma_dots_of_lowered(tail);
    let dot = last_of(tail, '.');
    if 0 <= dot && dot + 1 < tail.len() {
        assert(lowered(tail).skip(dot + 1) =~= lowered(tail.skip(dot + 1)));
    }
}

/// Looking at the end of names first loses no match: a record that a query finds has a
/// name that ends, but for the case of letters, in the literal characters that the
/// pattern ends with.
pub proof fn law_prefilter_loses_nothing(rule: Rule, v: IndexView, frn: u64)
    requires
        has_fixed_end(rule.pattern, CASE_INSENSITIVE, LITERAL_SEPARATOR),
        hit_of(rule, v, frn) is Some,
    ensures
        lowered(tail_of(rule.pattern)).is_suffix_of(lowered(v.entries[frn].name)),
{
    let full = path_of(v, frn)->0;
    let rel = relative(full, rule.prefix)->0;
    let tail = tail_of(rule.pattern);
    let name = v.entries[frn].name;
    lemma_tail(rule.pattern);
    assert(pattern_accepts(rule, rel));
    lemma_path_ends(v, frn);
    lemma_relative_ends(full, rule.prefix);
    lemma_end_of_path(full, rel, tail);
    if tail.len() > 0 {
        let k = tail.len() - 1;
        assert(is_literal(tail[k]));
        assert(full[full.len() - tail.len() + k] == full.last());
        assert(frn != ROOT_FRN);
        lemma_end_of_name(full, name, tail);
    } else {
        assert(lowered(tail) =~= lowered(name).subrange(name.len() as int, name.len() as int));
    }
}

/// What follows the root is the end of the path.
proof fn lemma_relative_ends(full: Seq<char>, prefix: Seq<char>)
    requires
        relative(full, prefix) is Some,
    ensures
        relative(full, prefix)->0.is_suffix_of(full),
{
    let rel = relative(full, prefix)->0;
    assert(rel =~= full.subrange(full.len() - rel.len(), full.len() as int));
}

/// `full` ends in the characters of `tail`, but for the case of letters, and none of them
/// is a backslash.
spec fn ends_as(full: Seq<char>, tail: Seq<char>) -> bool {
    &&& tail.len() <= full.len()
    &&& forall|j: int|
        0 <= j < tail.len() ==> lower(#[trigger] tail[j]) == lower(
            full[full.len() - tail.len() + j],
        ) && full[full.len() - tail.len() + j] != '\\'
}

/// The characters of a path, and of literal ones that the path relative to the root ends
/// in.
proof fn lemma_end_of_path(full: Seq<char>, rel: Seq<char>, tail: Seq<char>)
    requires
        rel.is_suffix_of(full),
        lowered(tail).is_suffix_of(lowered(replaced(rel, '\\', '/'))),
        forall|i: int| 0 <= i < tail.len() ==> is_literal(#[trigger] tail[i]),
    ensures
        ends_as(full, tail),
{
    let slashed = replaced(rel, '\\', '/');
    let end = lowered(slashed).subrange(slashed.len() - tail.len(), slashed.len() as int);
    assert forall|j: int| 0 <= j < tail.len() implies lower(#[trigger] tail[j]) == lower(
        full[full.len() - tail.len() + j],
    ) && full[full.len() - tail.len() + j] != '\\' by {
        let at = slashed.len() - tail.len() + j;
        assert(lowered(tail)[j] == end[j]);
        assert(end[j] == lower(slashed[at]));
        assert(rel[at] == full.subrange(full.len() - rel.len(), full.len() as int)[at]);
        lemma_lower_dot(tail[j]);
        assert(is_literal(tail[j]));
    }
}

/// Literal characters that a path ends in belong to its last name.
proof fn lemma_end_of_name(full: Seq<char>, name: Seq<char>, tail: Seq<char>)
    requires
        full.len() > name.len(),
        full[full.len() - name.len() - 1] == '\\',
        full.skip(full.len() - name.len()) == name,
        ends_as(full, tail),
    ensures
        lowered(tail).is_suffix_of(lowered(name)),
{
    if tail.len() > name.len() {
        let j = tail.len() - name.len() - 1;
        assert(lower(tail[j]) == lower(full[full.len() - tail.len() + j]));
    }
    let end = lowered(name).subrange(name.len() - tail.len(), name.len() as int);
    assert forall|j: int| 0 <= j < tail.len() implies lowered(tail)[j] == #[trigger] end[j] by {
        assert(lower(tail[j]) == lower(full[full.len() - tail.len() + j]));
        assert(name[name.len() - tail.len() + j] == full[full.len() - tail.len() + j]);
    }
    assert(lowered(tail) =~= end);
}

/// The path of a record other than the root directory ends in a backslash and its name;
/// that of the root directory ends in a backslash.
proof fn lemma_path_ends(v: IndexView, frn: u64)
    requires
        v.entries.contains_key(frn),
        path_of(v, frn) is Some,
    ensures
        ({
            let full = path_of(v, frn)->0;
            let name = v.entries[frn].name;
            if frn == ROOT_FRN {
                full.last() == '\\' && full.len() > 0
            } else {
                &&& full.len() > name.len()
                &&& full[full.len() - name.len() - 1] == '\\'
                &&& full.skip(full.len() - name.len()) == name
            }
        }),
{
    let names = lineage(v.entries, frn, MAX_DEPTH as nat)->0;
    let name = v.entries[frn].name;
    let full = drive_root(v.drive) + joined(names, '\\');
    if frn != ROOT_FRN {
        assert(names.len() > 0 && names.last() == name);
        if names.len() == 1 {
            assert(joined(names, '\\') == name);
        } else {
            assert(joined(names, '\\') == joined(names.drop_last(), '\\').push('\\') + name);
        }
        assert(full.skip(full.len() - name.len()) =~= name);
    }
}

/// A set of one glob matches what that glob matches.
proof fn lemma_one_glob(globs: Seq<(Seq<char>, bool, bool)>, pattern: Seq<char>, path: Seq<char>)
    requires
        globs == seq![(pattern, CASE_INSENSITIVE, LITERAL_SEPARATOR)],
    ensures
        some_accepts(globs, path) == glob_accepts(
            pattern,
            CASE_INSENSITIVE,
            LITERAL_SEPARATOR,
            path,
        ),
{
    assert(globs[0] == (pattern, CASE_INSENSITIVE, LITERAL_SEPARATOR));
}

/// Texts that differ in the case of letters still do with slashes for backslashes.
proof fn lemma_slashes_keep_letters(a: Seq<char>, b: Seq<char>)
    requires
        lowered(a) == lowered(b),
    ensures
        lowered(replaced(a, '\\', '/')) == lowered(replaced(b, '\\', '/')),
{
    lemma_same_letters(a, b);
    assert(lowered(replaced(a, '\\', '/')) =~= lowered(replaced(b, '\\', '/')));
}

/// `s` with slashes for backslashes.
fn slash_string(s: &str) -> (r: String)
    ensures
        r@ == replaced(s@, '\\', '/'),
        !r@.contains('\\'),
{
    let chars = replace_char(s, '\\', '/');
    assert(chars@.subrange(0, chars@.len() as int) == chars@);
    string_of(&chars, 0, chars.len())
}

} // verus!
