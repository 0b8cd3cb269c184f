//! A query of the whole machine: the drives are searched one after the other, until
//! the cap on the number of rows is reached.

use vstd::prelude::*;
#[allow(unused_imports)]
use vstd::std_specs::iter::IteratorSpec;

#[allow(unused_imports)]
use crate::engine::key;
use crate::engine::{Engine, QueryError};
#[allow(unused_imports)]
use crate::glob::with_slashes;
#[allow(unused_imports)]
use crate::index_laws::well_filed;
#[allow(unused_imports)]
use crate::mft::IndexView;
use crate::search::{drive_of, Found, Hit, Matcher, Query, DEFAULT_DRIVE};
#[allow(unused_imports)]
use crate::search::{
    drive_searched, hit_of, hit_views, is_answer, is_sound, lemma_empty_root, pattern_error,
    rule_of, HitView, Rule,
};
#[allow(unused_imports)]
use crate::search_laws::law_nothing_is_missed;

verus! {

/// Where a query looks.
pub enum Scope {
    /// On every drive.
    Machine,
    /// On this one.
    Drive(char),
}

/// Where a query with this root looks.
pub open spec fn scope_in(root: Seq<char>) -> Scope {
    if root.len() == 0 {
        Scope::Machine
    } else {
        Scope::Drive(drive_searched(root))
    }
}

/// Where a query with this root looks: without a root, everywhere.
pub fn scope_of(root: &str) -> (scope: Scope)
    ensures
        scope == scope_in(root@),
        scope == (if root@.len() == 0 {
            Scope::Machine
        } else {
            Scope::Drive(drive_searched(root@))
        }),
{
    if root.is_empty() {
        Scope::Machine
    } else {
        match drive_of(root) {
            Some(drive) => Scope::Drive(drive),
            None => Scope::Drive(DEFAULT_DRIVE),
        }
    }
}

/// What asking for the index of one drive came to: `None`, or why there is none.
pub struct Attempt {
    pub drive: char,
    pub failure: Option<String>,
}

/// The drives among those asked for that have an index.
pub open spec fn usable(attempts: Seq<Attempt>) -> Seq<char>
    decreases attempts.len(),
{
    if attempts.len() == 0 {
        Seq::empty()
    } else {
        let before = usable(attempts.drop_last());
        if attempts.last().failure is None {
            before.push(attempts.last().drive)
        } else {
            before
        }
    }
}

/// Why the last drive that has no index has none.
pub open spec fn last_failure(attempts: Seq<Attempt>) -> Seq<char>
    decreases attempts.len(),
{
    if attempts.len() == 0 {
        "no NTFS volume found"@
    } else {
        match attempts.last().failure {
            Some(message) => message@,
            None => last_failure(attempts.drop_last()),
        }
    }
}

/// The drives to search: those that cannot be indexed are skipped, and the query fails
/// only if none is left.
pub fn usable_drives(attempts: Vec<Attempt>) -> (r: Result<Vec<char>, String>)
    ensures
        match r {
            Ok(drives) => drives@ == usable(attempts@) && drives@.len() > 0,
            Err(message) => usable(attempts@).len() == 0 && message@ == last_failure(attempts@),
        },
{
    let mut drives: Vec<char> = Vec::new();
    let mut failure = "no NTFS volume found".to_owned();
    let ghost all = attempts@;
    assert(all.take(0) =~= Seq::empty());
    for attempt in it: attempts
        invariant
            it.seq() == all,
            drives@ == usable(all.take(it.index() as int)),
            failure@ == last_failure(all.take(it.index() as int)),
    {
        let ghost i = it.index() as int;
        assert(all.take(i + 1).drop_last() =~= all.take(i));
        assert(all.take(i + 1).last() == attempt);
        match attempt.failure {
            Some(message) => {
                failure = message;
            },
            None => {
                drives.push(attempt.drive);
            },
        }
    }
    assert(all.take(all.len() as int) =~= all);
    if drives.len() == 0 {
        Err(failure)
    } else {
        Ok(drives)
    }
}

/// What the search of one drive yields.
pub struct Part {
    pub drive: char,
    pub found: Found,
}

/// What the search of several drives yields.
pub struct Answer {
    pub hits: Vec<Hit>,
    /// The letters of the drives that were searched.
    pub drives: String,
    /// The number of records looked at, or the largest number there is.
    pub scanned: usize,
    pub truncated: bool,
}

/// What a query without a root asks of a record.
pub open spec fn unscoped(pattern: Seq<char>) -> Rule {
    Rule {
        prefix: Seq::empty(),
        pattern: with_slashes(pattern),
        spare_git: false,
        ignore: None,
    }
}

/// The rows of the parts, in order.
pub open spec fn all_rows(parts: Seq<Part>) -> Seq<HitView>
    decreases parts.len(),
{
    if parts.len() == 0 {
        Seq::empty()
    } else {
        all_rows(parts.drop_last()) + hit_views(parts.last().found.hits@)
    }
}

/// The number of records that were looked at.
pub open spec fn all_scanned(parts: Seq<Part>) -> nat
    decreases parts.len(),
{
    if parts.len() == 0 {
        0
    } else {
        all_scanned(parts.drop_last()) + parts.last().found.scanned as nat
    }
}

/// The letters of the drives that were searched.
pub open spec fn letters(parts: Seq<Part>) -> Seq<char> {
    Seq::new(parts.len(), |i: int| parts[i].drive)
}

/// Some part was cut off.
pub open spec fn is_cut(parts: Seq<Part>) -> bool {
    exists|i: int| 0 <= i < parts.len() && (#[trigger] parts[i]).found.truncated
}

/// `parts` is what a search of the first drives may yield: each drive is given what
/// the earlier ones left of `max`, and none is searched after one that was cut off.
pub open spec fn is_fan_out_so_far(
    rule: Rule,
    m: Map<u32, IndexView>,
    scans: spec_fn(u32) -> Seq<u64>,
    drives: Seq<char>,
    max: usize,
    parts: Seq<Part>,
) -> bool {
    &&& parts.len() <= drives.len()
    &&& forall|i: int|
        0 <= i < parts.len() ==> {
            let part = #[trigger] parts[i];
            &&& part.drive == drives[i]
            &&& all_rows(parts.take(i)).len() <= max
            &&& is_answer(
                rule,
                m[key(part.drive)],
                scans(key(part.drive)),
                (max - all_rows(parts.take(i)).len()) as usize,
                part.found,
            )
            &&& part.found.truncated ==> i == parts.len() - 1
        }
}

/// `parts` is what a search of the drives, in their order, may yield. It ends before
/// the last drive only with one that was cut off.
pub open spec fn is_fan_out(
    rule: Rule,
    m: Map<u32, IndexView>,
    scans: spec_fn(u32) -> Seq<u64>,
    drives: Seq<char>,
    max: usize,
    parts: Seq<Part>,
) -> bool {
    &&& is_fan_out_so_far(rule, m, scans, drives, max, parts)
    &&& !is_cut(parts) ==> parts.len() == drives.len()
}

impl Engine {
    /// Run a glob query on several drives, without a root.
    pub fn query_all(&self, pattern: &str, max_results: usize, drives: &Vec<char>) -> (r: Result<
        Vec<Part>,
        QueryError,
    >)
        ensures
            match r {
                Ok(parts) => {
                    &&& pattern_error(pattern@) is None
                    &&& forall|i: int|
                        0 <= i < drives@.len() ==> self@.contains_key(key(#[trigger] drives@[i]))
                    &&& is_fan_out(
                        unscoped(pattern@),
                        self@,
                        |code: u32| self.index_at(code).walk().remaining().unref(),
                        drives@,
                        max_results,
                        parts@,
                    )
                    &&& is_sound(unscoped(pattern@))
                    &&& all_rows(parts@).len() <= max_results
                },
                Err(QueryError::BadPattern(message)) => Some(message@) == pattern_error(pattern@),
                Err(QueryError::NotIndexed) => {
                    &&& pattern_error(pattern@) is None
                    &&& exists|i: int|
                        0 <= i < drives@.len() && !self@.contains_key(
                            key(#[trigger] drives@[i]),
                        )
                },
            },
    {
        let q = Query { root: "", pattern, max_results, respect_gitignore: false };
        let lines: Vec<String> = Vec::new();
        let matcher = match Matcher::new(&q, &lines) {
            Ok(matcher) => matcher,
            Err(message) => {
                return Err(QueryError::BadPattern(message));
            },
        };
        proof {
            lemma_unscoped(q, lines@);
        }
        let mut k: usize = 0;
        while k < drives.len()
            invariant
                k <= drives@.len(),
                pattern_error(pattern@) is None,
                forall|i: int| 0 <= i < k ==> self@.contains_key(key(#[trigger] drives@[i])),
            decreases drives@.len() - k,
        {
            if !self.is_indexed(drives[k]) {
                return Err(QueryError::NotIndexed);
            }
            k += 1;
        }
        let mut parts: Vec<Part> = Vec::new();
        let mut left: usize = max_results;
        let mut cut = false;
        let ghost rule = unscoped(pattern@);
        while parts.len() < drives.len() && !cut
            invariant
                rule == matcher@,
                forall|i: int|
                    0 <= i < drives@.len() ==> self@.contains_key(key(#[trigger] drives@[i])),
                is_fan_out_so_far(
                    rule,
                    self@,
                    |code: u32| self.index_at(code).walk().remaining().unref(),
                    drives@,
                    max_results,
                    parts@,
                ),
                all_rows(parts@).len() + left == max_results,
                cut == is_cut(parts@),
            decreases drives@.len() - parts@.len(),
        {
            let drive = letter_at(drives, parts.len());
            let found = self.find_on(drive, &matcher, left);
            left -= found.hits.len();
            cut = found.truncated;
            let part = Part { drive, found };
            proof {
                lemma_one_part_more(
                    rule,
                    self@,
                    |code: u32| self.index_at(code).walk().remaining().unref(),
                    drives@,
                    max_results,
                    parts@,
                    part,
                );
            }
            parts.push(part);
        }
        Ok(parts)
    }
}

/// The `i`-th letter of a list.
fn letter_at(drives: &Vec<char>, i: usize) -> (drive: char)
    requires
        i < drives@.len(),
    ensures
        drive == drives@[i as int],
{
    drives[i]
}

/// One more drive is searched.
proof fn lemma_one_part_more(
    rule: Rule,
    m: Map<u32, IndexView>,
    scans: spec_fn(u32) -> Seq<u64>,
    drives: Seq<char>,
    max: usize,
    parts: Seq<Part>,
    part: Part,
)
    requires
        is_fan_out_so_far(rule, m, scans, drives, max, parts),
        parts.len() < drives.len(),
        !is_cut(parts),
        all_rows(parts).len() <= max,
        part.drive == drives[parts.len() as int],
        is_answer(
            rule,
            m[key(part.drive)],
            scans(key(part.drive)),
            (max - all_rows(parts).len()) as usize,
            part.found,
        ),
    ensures
        is_fan_out_so_far(rule, m, scans, drives, max, parts.push(part)),
        is_cut(parts.push(part)) == part.found.truncated,
        all_rows(parts.push(part)).len() == all_rows(parts).len() + part.found.hits@.len(),
{
    let more = parts.push(part);
    assert(more.drop_last() =~= parts);
    assert(more[parts.len() as int] == part);
    assert(more.take(parts.len() as int) =~= parts);
    assert forall|i: int| 0 <= i < more.len() implies {
        let one = #[trigger] more[i];
        &&& one.drive == drives[i]
        &&& all_rows(more.take(i)).len() <= max
        &&& is_answer(
            rule,
            m[key(one.drive)],
            scans(key(one.drive)),
            (max - all_rows(more.take(i)).len()) as usize,
            one.found,
        )
        &&& one.found.truncated ==> i == more.len() - 1
    } by {
        if i < parts.len() {
            assert(more[i] == parts[i]);
            assert(more.take(i) =~= parts.take(i));
        }
    }
}

/// A query with an empty root is not scoped, and no ignore rules apply to it.
proof fn lemma_unscoped(q: Query, lines: Seq<String>)
    requires
        q.root@ == ""@,
    ensures
        rule_of(q, lines) == unscoped(q.pattern@),
{
    reveal_strlit("");
    lemma_empty_root(q.root@);
}

/// Puts the parts together.
pub fn merge(parts: Vec<Part>) -> (answer: Answer)
    ensures
        hit_views(answer.hits@) == all_rows(parts@),
        answer.drives@ == letters(parts@),
        answer.scanned == (if all_scanned(parts@) <= usize::MAX {
            all_scanned(parts@) as usize
        } else {
            usize::MAX
        }),
        answer.truncated == is_cut(parts@),
{
    let mut hits: Vec<Hit> = Vec::new();
    let mut drives = String::new();
    let mut scanned: usize = 0;
    let mut truncated = false;
    let ghost all = parts@;
    assert(hit_views(hits@) =~= Seq::empty());
    assert(drives@ =~= letters(all.take(0)));
    for part in it: parts
        invariant
            it.seq() == all,
            hit_views(hits@) == all_rows(all.take(it.index() as int)),
            drives@ == letters(all.take(it.index() as int)),
            scanned == (if all_scanned(all.take(it.index() as int)) <= usize::MAX {
                all_scanned(all.take(it.index() as int)) as usize
            } else {
                usize::MAX
            }),
            truncated == is_cut(all.take(it.index() as int)),
    {
        let ghost i = it.index() as int;
        let ghost done = all.take(i);
        let ghost more = all.take(i + 1);
        assert(more.drop_last() =~= done);
        assert(more.last() == part);
        let ghost before = drives@;
        drives.push(part.drive);
        assert(drives@ =~= letters(more)) by {
            assert(forall|j: int| 0 <= j < done.len() ==> letters(more)[j] == before[j]);
        }
        let Found { hits: rows, scanned: looked_at, truncated: cut } = part.found;
        scanned = if looked_at > usize::MAX - scanned {
            usize::MAX
        } else {
            scanned + looked_at
        };
        truncated = truncated || cut;
        assert(truncated == is_cut(more)) by {
            assert(more[i].found.truncated == cut);
            assert(forall|j: int| 0 <= j < i ==> more[j] == done[j]);
            if is_cut(done) {
                let j = choose|j: int| 0 <= j < done.len() && (#[trigger] done[j]).found.truncated;
                assert(more[j].found.truncated);
            }
        }
        push_rows(&mut hits, rows);
    }
    assert(all.take(all.len() as int) =~= all);
    Answer { hits, drives, scanned, truncated }
}

/// Appends rows.
fn push_rows(hits: &mut Vec<Hit>, rows: Vec<Hit>)
    ensures
        hit_views(final(hits)@) == hit_views(old(hits)@) + hit_views(rows@),
{
    let ghost start = hits@;
    assert(start + rows@.take(0) =~= start);
    for row in it: rows
        invariant
            it.seq() == rows@,
            hits@ == start + rows@.take(it.index() as int),
    {
        assert(rows@.take(it.index() + 1) =~= rows@.take(it.index() as int).push(row));
        hits.push(row);
    }
    assert(rows@.take(rows@.len() as int) =~= rows@);
    assert(hit_views(hits@) =~= hit_views(start) + hit_views(rows@));
}

/// The rows of each part are among all rows.
proof fn lemma_rows_of_part(parts: Seq<Part>, k: int, hit: HitView)
    requires
        0 <= k < parts.len(),
        hit_views(parts[k].found.hits@).contains(hit),
    ensures
        all_rows(parts).contains(hit),
    decreases parts.len(),
{
    let before = all_rows(parts.drop_last());
    let rows = hit_views(parts.last().found.hits@);
    if k < parts.len() - 1 {
        lemma_rows_of_part(parts.drop_last(), k, hit);
        assert((before + rows)[before.index_of(hit)] == hit);
    } else {
        assert((before + rows)[before.len() + rows.index_of(hit)] == hit);
    }
}

/// A query of the whole machine that was not cut off misses no drive: every record of
/// any of them that passes the query has its row.
pub proof fn law_no_drive_is_missed(
    rule: Rule,
    m: Map<u32, IndexView>,
    scans: spec_fn(u32) -> Seq<u64>,
    drives: Seq<char>,
    max: usize,
    parts: Seq<Part>,
    k: int,
    frn: u64,
)
    requires
        is_fan_out(rule, m, scans, drives, max, parts),
        !is_cut(parts),
        0 <= k < drives.len(),
        well_filed(m[key(drives[k])]),
        is_sound(rule),
        hit_of(rule, m[key(drives[k])], frn) is Some,
    ensures
        all_rows(parts).contains(hit_of(rule, m[key(drives[k])], frn)->0),
{
    let part = parts[k];
    let left = (max - all_rows(parts.take(k)).len()) as usize;
    assert(!part.found.truncated);
    law_nothing_is_missed(rule, m[key(part.drive)], scans(key(part.drive)), left, part.found);
    lemma_rows_of_part(parts, k, hit_of(rule, m[key(drives[k])], frn)->0);
}

} // verus!
