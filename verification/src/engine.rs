//! Query engine: caches a per-drive index in memory, brings it up to date from the
//! USN Journal, and answers glob queries.

use std::collections::HashMap;

use vstd::prelude::*;
#[allow(unused_imports)]
use vstd::std_specs::iter::IteratorSpec;

#[allow(unused_imports)]
use crate::buckets::{lemma_push_has, lemma_push_unique};
use crate::journal::{JournalHeader, JournalRead};
#[allow(unused_imports)]
use crate::journal::{brought_up, is_news, reply_view, seen, CURSOR_SIZE};
use crate::mft::Index;
#[allow(unused_imports)]
use crate::mft::IndexView;
use crate::search::{drive_of, Found, Hit, Matcher, Query, DEFAULT_DRIVE};
#[allow(unused_imports)]
use crate::search::{
    counts_fit, drive_searched, hit_views, is_answer, is_sound, pattern_error, refused_in_any_case,
    rule_of, spares_git,
};
use crate::text::upper_char;
#[allow(unused_imports)]
use crate::text::{lower, upper};
#[allow(unused_imports)]
use crate::usn::lemma_records_len;
use crate::watch::{Action, Event, Watcher};
#[allow(unused_imports)]
use crate::watch::{action_after, in_step, index_after, law_in_step_is_kept, watcher_after};

verus! {

broadcast use vstd::std_specs::hash::group_hash_axioms;

/// Telemetry returned alongside results.
#[derive(Clone, Copy)]
pub struct QueryStats {
    pub drive: char,
    pub scanned: usize,
    pub returned: usize,
    pub truncated: bool,
}

/// Why a query has no result.
pub enum QueryError {
    /// The pattern does not compile; this is the message.
    BadPattern(String),
    /// There is no index of the drive.
    NotIndexed,
}

/// What the index of a drive is kept under: the letter's code, in upper case.
pub open spec fn key(drive: char) -> u32 {
    upper(drive) as u32
}

/// What the index of a drive is kept under.
fn key_for(drive: char) -> (code: u32)
    ensures
        code == key(drive),
{
    upper_char(drive) as u32
}

/// Holds one cached index per drive letter.
pub struct Engine {
    indices: HashMap<u32, Index>,
}

impl View for Engine {
    /// The index of each drive, by the code of its letter in upper case.
    type V = Map<u32, IndexView>;

    closed spec fn view(&self) -> Map<u32, IndexView> {
        self.indices@.map_values(|index: Index| index@)
    }
}

/// The number of entries in all indices.
pub open spec fn total_entries(m: Map<u32, IndexView>) -> nat
    decreases m.dom().len(),
    when m.dom().finite()
{
    if m.dom().len() == 0 {
        0
    } else {
        let drive = m.dom().choose();
        m[drive].entries.dom().len() + total_entries(m.remove(drive))
    }
}

/// The indices after that of a drive was asked for: one that is there stays, and where
/// there is none, the one that was built is kept.
pub open spec fn ensured(m: Map<u32, IndexView>, drive: char, built: IndexView) -> Map<
    u32,
    IndexView,
> {
    if m.contains_key(key(drive)) {
        m
    } else {
        m.insert(key(drive), built)
    }
}

/// The count `n` of entries, after the index of a drive was asked for.
pub open spec fn grown(n: nat, m: Map<u32, IndexView>, drive: char, built: IndexView) -> nat {
    if m.contains_key(key(drive)) {
        n
    } else {
        n + built.entries.dom().len()
    }
}

/// An engine holds the indices of finitely many drives, so that their entries can be
/// counted.
pub proof fn law_drives_are_finitely_many(engine: Engine)
    ensures
        engine@.dom().finite(),
{
    assert(engine@.dom() =~= engine.indices@.dom());
}

/// What is said of an engine is said of the indices that it keeps.
pub proof fn law_engine_is_seen_as_it_is(engine: Engine, drive: char)
    requires
        engine@.contains_key(key(drive)),
    ensures
        engine@[key(drive)] == engine.index_at(key(drive))@,
{
}

/// The count of entries grows by those of an index that is new, and by no others: asking
/// for a drive that is cached, in either case of its letter, leaves it as it is.
pub proof fn law_count_grows_by_the_new_index(engine: Engine, drive: char, built: IndexView)
    ensures
        total_entries(ensured(engine@, drive, built)) == grown(
            total_entries(engine@),
            engine@,
            drive,
            built,
        ),
{
    let m = engine@;
    law_drives_are_finitely_many(engine);
    if !m.contains_key(key(drive)) {
        let after = m.insert(key(drive), built);
        assert(after.dom() =~= m.dom().insert(key(drive)));
        lemma_total_remove(after, key(drive));
        assert(after.remove(key(drive)) =~= m);
    }
}

/// Both cases of a letter are the same drive.
pub proof fn law_one_index_per_letter(drive: char)
    ensures
        key(lower(drive)) == key(drive),
        key(upper(drive)) == key(drive),
{
}

/// Taking out any one index takes its entries off the total.
pub proof fn lemma_total_remove(m: Map<u32, IndexView>, drive: u32)
    requires
        m.dom().finite(),
        m.contains_key(drive),
    ensures
        total_entries(m) == m[drive].entries.dom().len() + total_entries(m.remove(drive)),
    decreases m.dom().len(),
{
    let first = m.dom().choose();
    assert(m.dom().contains(first)) by {
        assert(m.dom().contains(drive));
    }
    assert(m.dom().len() > 0) by {
        if m.dom().len() == 0 {
            assert(m.dom() =~= Set::empty());
        }
    }
    if first != drive {
        assert(m.remove(first).dom() =~= m.dom().remove(first));
        assert(m.remove(drive).dom() =~= m.dom().remove(drive));
        lemma_total_remove(m.remove(first), drive);
        lemma_total_remove(m.remove(drive), first);
        assert(m.remove(first).remove(drive) =~= m.remove(drive).remove(first));
    }
}

/// `drives` are the letters with the given codes, each once.
spec fn are_letters_of(drives: Seq<char>, codes: Seq<u32>) -> bool {
    &&& drives.no_duplicates()
    &&& forall|drive: char| #[trigger] drives.contains(drive) <==> codes.contains(drive as u32)
}

/// A letter stands on both lists or on none, after one more went on them.
proof fn lemma_other_letter(drives: Seq<char>, codes: Seq<u32>, drive: char, other: char)
    requires
        are_letters_of(drives, codes),
    ensures
        drives.push(drive).contains(other) <==> codes.push(drive as u32).contains(other as u32),
{
    lemma_push_has(drives, drive, other);
    lemma_push_has(codes, drive as u32, other as u32);
}

/// A letter stands on both lists or on none, after a code of no letter went on one.
proof fn lemma_other_code(drives: Seq<char>, codes: Seq<u32>, code: u32, other: char)
    requires
        are_letters_of(drives, codes),
        0xD800 <= code <= 0xDFFF || code > 0x10FFFF,
    ensures
        drives.contains(other) <==> codes.push(code).contains(other as u32),
{
    lemma_push_has(codes, code, other as u32);
}

/// A letter and its code go on both lists together.
proof fn lemma_one_letter_more(drives: Seq<char>, codes: Seq<u32>, drive: char)
    requires
        are_letters_of(drives, codes),
        !codes.contains(drive as u32),
    ensures
        are_letters_of(drives.push(drive), codes.push(drive as u32)),
{
    assert(!drives.contains(drive));
    assert forall|other: char| #[trigger]
        drives.push(drive).contains(other) <==> codes.push(drive as u32).contains(
            other as u32,
        ) by {
        lemma_other_letter(drives, codes, drive, other);
    }
    lemma_push_unique(drives, drive);
}

/// A code that is none of a letter changes nothing.
proof fn lemma_no_letter_more(drives: Seq<char>, codes: Seq<u32>, code: u32)
    requires
        are_letters_of(drives, codes),
        0xD800 <= code <= 0xDFFF || code > 0x10FFFF,
    ensures
        are_letters_of(drives, codes.push(code)),
{
    assert forall|drive: char| #[trigger]
        drives.contains(drive) <==> codes.push(code).contains(drive as u32) by {
        lemma_other_code(drives, codes, code, drive);
    }
}

/// What asking the journal of one drive came to.
pub struct DriveReply {
    pub drive: char,
    /// The position from which the journal was read.
    pub start_usn: i64,
    /// What the volume reports of its journal, if it could be asked.
    pub header: Option<JournalHeader>,
    /// The bytes that the read returned, if it succeeded.
    pub reply: Option<Vec<u8>>,
}

impl DriveReply {
    /// The bytes returned.
    pub open spec fn bytes(self) -> Option<Seq<u8>> {
        match self.reply {
            Some(buf) => Some(buf@),
            None => None,
        }
    }
}

/// The reply goes on from where the index of its drive stands. One that was read from
/// elsewhere, because the index has moved since, is not taken up.
pub open spec fn is_due(m: Map<u32, IndexView>, reply: DriveReply) -> bool {
    m.contains_key(key(reply.drive)) && m[key(reply.drive)].next_usn == reply.start_usn
}

/// The indices after the reply of one drive. A drive without an index has none.
pub open spec fn refreshed(m: Map<u32, IndexView>, reply: DriveReply) -> Map<u32, IndexView> {
    let drive = key(reply.drive);
    if is_due(m, reply) {
        m.insert(drive, brought_up(m[drive], reply.header, reply.bytes()))
    } else {
        m
    }
}

/// The number of records in the reply of one drive.
pub open spec fn seen_by(m: Map<u32, IndexView>, reply: DriveReply) -> nat {
    let drive = key(reply.drive);
    if is_due(m, reply) {
        seen(m[drive], reply.header, reply.bytes())
    } else {
        0
    }
}

/// The indices after a list of replies.
pub open spec fn all_refreshed(m: Map<u32, IndexView>, replies: Seq<DriveReply>) -> Map<
    u32,
    IndexView,
>
    decreases replies.len(),
{
    if replies.len() == 0 {
        m
    } else {
        refreshed(all_refreshed(m, replies.drop_last()), replies.last())
    }
}

/// The number of records in a list of replies.
pub open spec fn all_seen(m: Map<u32, IndexView>, replies: Seq<DriveReply>) -> nat
    decreases replies.len(),
{
    if replies.len() == 0 {
        0
    } else {
        all_seen(m, replies.drop_last()) + seen_by(
            all_refreshed(m, replies.drop_last()),
            replies.last(),
        )
    }
}

/// Replies bring no drive and take none away, and leave alone the drives that they are
/// not of.
pub proof fn law_replies_touch_no_other_drive(m: Map<u32, IndexView>, replies: Seq<DriveReply>)
    ensures
        all_refreshed(m, replies).dom() == m.dom(),
        forall|drive: u32|
            (forall|i: int| 0 <= i < replies.len() ==> key((#[trigger] replies[i]).drive) != drive)
                && m.contains_key(drive) ==> #[trigger] all_refreshed(m, replies)[drive]
                == m[drive],
    decreases replies.len(),
{
    if replies.len() > 0 {
        let before = replies.drop_last();
        law_replies_touch_no_other_drive(m, before);
        assert(all_refreshed(m, replies).dom() =~= m.dom());
        assert forall|drive: u32|
            (forall|i: int| 0 <= i < replies.len() ==> key((#[trigger] replies[i]).drive) != drive)
                && m.contains_key(drive) implies #[trigger] all_refreshed(m, replies)[drive]
            == m[drive] by {
            assert(key(replies[replies.len() - 1].drive) != drive);
            assert forall|i: int| 0 <= i < before.len() implies key((#[trigger] before[i]).drive)
                != drive by {
                assert(before[i] == replies[i]);
            }
            assert(all_refreshed(m, before)[drive] == m[drive]);
        }
    }
}

/// The number of bytes in a list of replies.
pub open spec fn all_bytes(replies: Seq<DriveReply>) -> nat
    decreases replies.len(),
{
    if replies.len() == 0 {
        0
    } else {
        all_bytes(replies.drop_last()) + (match replies.last().reply {
            Some(buf) => buf@.len(),
            None => 0,
        })
    }
}

/// Fewer bytes come from fewer replies.
proof fn lemma_bytes_grow(replies: Seq<DriveReply>, i: int)
    requires
        0 <= i <= replies.len(),
    ensures
        all_bytes(replies.take(i)) <= all_bytes(replies),
    decreases replies.len(),
{
    if i < replies.len() {
        lemma_bytes_grow(replies.drop_last(), i);
        assert(replies.drop_last().take(i) =~= replies.take(i));
    } else {
        assert(replies.take(i) =~= replies);
    }
}

impl Engine {
    /// Drives are kept under letters in upper case.
    #[verifier::type_invariant]
    spec fn wf(self) -> bool {
        forall|code: u32| #[trigger]
            self.indices@.contains_key(code) ==> !('a' as u32 <= code <= 'z' as u32)
    }

    /// An engine without any index.
    pub fn new() -> (engine: Self)
        ensures
            engine@ == Map::<u32, IndexView>::empty(),
    {
        let engine = Engine { indices: HashMap::new() };
        assert(engine@ =~= Map::<u32, IndexView>::empty());
        engine
    }

    /// Whether the index of a drive is there.
    pub fn is_indexed(&self, drive: char) -> (r: bool)
        ensures
            r == self@.contains_key(key(drive)),
    {
        self.indices.contains_key(&key_for(drive))
    }

    /// Ensure the index for `drive` exists. `built` is what building it came to; an
    /// index that is already there stays.
    pub fn ensure_drive(&mut self, drive: char, built: Result<Index, String>) -> (r: Result<
        (),
        String,
    >)
        ensures
            match built {
                Ok(index) => r is Ok && final(self)@ == ensured(old(self)@, drive, index@),
                Err(message) => {
                    &&& final(self)@ == old(self)@
                    &&& old(self)@.contains_key(key(drive)) ==> r is Ok
                    &&& !old(self)@.contains_key(key(drive)) ==> r == Err::<(), String>(message)
                },
            },
    {
        if self.is_indexed(drive) {
            return Ok(());
        }
        match built {
            Ok(index) => {
                let mut taken = Engine::new();
                std::mem::swap(self, &mut taken);
                proof {
                    use_type_invariant(&taken);
                }
                let Engine { mut indices } = taken;
                indices.insert(key_for(drive), index);
                *self = Engine { indices };
                assert(self@ =~= old(self)@.insert(key(drive), index@));
                Ok(())
            },
            Err(message) => Err(message),
        }
    }

    /// Cache the index for a drive up front (used by `bench`).
    pub fn warm(&mut self, drive: char, built: Result<Index, String>) -> (r: Result<(), String>)
        ensures
            match built {
                Ok(index) => r is Ok && final(self)@ == ensured(old(self)@, drive, index@),
                Err(message) => {
                    &&& final(self)@ == old(self)@
                    &&& old(self)@.contains_key(key(drive)) ==> r is Ok
                    &&& !old(self)@.contains_key(key(drive)) ==> r == Err::<(), String>(message)
                },
            },
            built matches Ok(index) ==> total_entries(final(self)@) == grown(
                total_entries(old(self)@),
                old(self)@,
                drive,
                index@,
            ),
    {
        proof {
            if let Ok(index) = &built {
                law_count_grows_by_the_new_index(*old(self), drive, index@);
            }
        }
        self.ensure_drive(drive, built)
    }

    /// The index that is kept under a code.
    pub closed spec fn index_at(&self, code: u32) -> Index {
        self.indices@[code]
    }

    /// Runs a compiled query on one drive.
    pub fn find_on(&self, drive: char, matcher: &Matcher, max: usize) -> (found: Found)
        requires
            self@.contains_key(key(drive)),
        ensures
            is_answer(
                matcher@,
                self@[key(drive)],
                self.index_at(key(drive)).walk().remaining().unref(),
                max,
                found,
            ),
            spares_git(matcher@, hit_views(found.hits@)),
            self@.contains_key(key(drive)) ==> counts_fit(
                matcher@,
                self@[key(drive)],
                max,
                found,
            ),
            found.hits@.len() <= max,
    {
        match self.indices.get(&key_for(drive)) {
            Some(index) => {
                assert(self@[key(drive)] == index@);
                matcher.find(index, max)
            },
            None => Found { hits: Vec::new(), scanned: 0, truncated: false },
        }
    }

    /// Run a glob query on the drive of its root. `lines` are those of the
    /// `.gitignore` file in the root, if there is one.
    pub fn query(&self, q: &Query, lines: &Vec<String>) -> (r: Result<
        (Vec<Hit>, QueryStats),
        QueryError,
    >)
        ensures
            match r {
                Ok((hits, stats)) => {
                    let drive = drive_searched(q.root@);
                    &&& pattern_error(q.pattern@) is None
                    &&& self@.contains_key(key(drive))
                    &&& stats.drive == drive
                    &&& stats.returned == hits@.len()
                    &&& is_answer(
                        rule_of(*q, lines@),
                        self@[key(drive)],
                        self.index_at(key(drive)).walk().remaining().unref(),
                        q.max_results,
                        Found { hits, scanned: stats.scanned, truncated: stats.truncated },
                    )
                    &&& counts_fit(
                        rule_of(*q, lines@),
                        self@[key(drive)],
                        q.max_results,
                        Found { hits, scanned: stats.scanned, truncated: stats.truncated },
                    )
                    &&& is_sound(rule_of(*q, lines@))
                    &&& spares_git(rule_of(*q, lines@), hit_views(hits@))
                },
                Err(QueryError::BadPattern(message)) => Some(message@) == pattern_error(q.pattern@),
                Err(QueryError::NotIndexed) => {
                    &&& pattern_error(q.pattern@) is None
                    &&& !self@.contains_key(key(drive_searched(q.root@)))
                },
            },
            refused_in_any_case(q.pattern@, pattern_error(q.pattern@) is Some),
    {
        let drive = match drive_of(q.root) {
            Some(drive) => drive,
            None => DEFAULT_DRIVE,
        };
        let matcher = match Matcher::new(q, lines) {
            Ok(matcher) => matcher,
            Err(message) => {
                return Err(QueryError::BadPattern(message));
            },
        };
        if !self.is_indexed(drive) {
            return Err(QueryError::NotIndexed);
        }
        let Found { hits, scanned, truncated } = self.find_on(drive, &matcher, q.max_results);
        let stats = QueryStats { drive, scanned, returned: hits.len(), truncated };
        Ok((hits, stats))
    }

    /// The drives whose index is there, their letters in upper case.
    pub fn drives(&self) -> (drives: Vec<char>)
        ensures
            drives@.no_duplicates(),
            forall|drive: char| #[trigger]
                drives@.contains(drive) <==> self@.contains_key(key(drive)) && upper(drive)
                    == drive,
    {
        let mut drives: Vec<char> = Vec::new();
        assert(self@.dom() =~= self.indices@.dom());
        for code in it: self.indices.keys()
            invariant
                it.seq().unref().to_set() == self@.dom(),
                it.seq().unref().no_duplicates(),
                it.seq() == vstd::std_specs::iter::IteratorSpec::remaining(
                    &vstd::std_specs::hash::spec_keys_iter(&self.indices),
                ),
                are_letters_of(drives@, it.seq().unref().take(it.index() as int)),
        {
            let ghost codes = it.seq().unref();
            let ghost i = it.index() as int;
            let ghost before = drives@;
            assert(codes.take(i + 1) =~= codes.take(i).push(*code));
            assert(!codes.take(i).contains(*code));
            if let Some(drive) = char::from_u32(*code) {
                drives.push(drive);
                proof {
                    lemma_one_letter_more(before, codes.take(i), drive);
                }
            } else {
                proof {
                    lemma_no_letter_more(before, codes.take(i), *code);
                }
            }
        }
        proof {
            let codes = vstd::std_specs::iter::IteratorSpec::remaining(
                &vstd::std_specs::hash::spec_keys_iter(&self.indices),
            ).unref();
            assert(codes.take(codes.len() as int) =~= codes);
            use_type_invariant(self);
            assert forall|drive: char| #[trigger]
                drives@.contains(drive) <==> self@.contains_key(key(drive)) && upper(drive)
                    == drive by {
                assert(codes.to_set().contains(drive as u32) <==> codes.contains(drive as u32));
                assert(self.indices@.contains_key(drive as u32) <==> self@.contains_key(
                    drive as u32,
                ));
            }
        }
        drives
    }

    /// Where in its journal the index of a drive stands: the journal's id, and the
    /// position to read on from.
    pub fn cursor(&self, drive: char) -> (r: Option<(u64, i64)>)
        ensures
            r == (if self@.contains_key(key(drive)) {
                Some((self@[key(drive)].journal_id, self@[key(drive)].next_usn))
            } else {
                None
            }),
    {
        match self.indices.get(&key_for(drive)) {
            Some(index) => Some((index.journal_id, index.next_usn)),
            None => None,
        }
    }

    /// Apply USN incremental updates to every cached drive that there is a reply of.
    /// Returns total records seen.
    pub fn refresh_all(&mut self, replies: &Vec<DriveReply>) -> (total: usize)
        requires
            all_bytes(replies@) <= usize::MAX,
        ensures
            final(self)@ == all_refreshed(old(self)@, replies@),
            total == all_seen(old(self)@, replies@),
    {
        let mut total: usize = 0;
        let ghost start = self@;
        let mut i: usize = 0;
        assert(replies@.take(0) =~= Seq::empty());
        while i < replies.len()
            invariant
                i <= replies@.len(),
                all_bytes(replies@) <= usize::MAX,
                self@ == all_refreshed(start, replies@.take(i as int)),
                total == all_seen(start, replies@.take(i as int)),
                total <= all_bytes(replies@.take(i as int)),
            decreases replies@.len() - i,
        {
            proof {
                assert(replies@.take(i + 1).drop_last() =~= replies@.take(i as int));
                assert(replies@.take(i + 1).last() == replies@[i as int]);
                lemma_bytes_grow(replies@, i + 1);
            }
            let n = self.refresh(&replies[i]);
            total += n;
            i += 1;
        }
        assert(replies@.take(i as int) =~= replies@);
        total
    }

    /// Takes up the reply of one drive.
    fn refresh(&mut self, reply: &DriveReply) -> (n: usize)
        ensures
            final(self)@ == refreshed(old(self)@, *reply),
            n == seen_by(old(self)@, *reply),
            n <= (match reply.reply {
                Some(buf) => buf@.len(),
                None => 0,
            }),
    {
        let mut taken = Engine::new();
        std::mem::swap(self, &mut taken);
        proof {
            use_type_invariant(&taken);
        }
        let Engine { mut indices } = taken;
        let mut n: usize = 0;
        if let Some(index) = indices.remove(&key_for(reply.drive)) {
            let mut index = index;
            let ghost before = index@;
            if index.next_usn == reply.start_usn {
                let bytes: Option<&[u8]> = match &reply.reply {
                    Some(buf) => Some(buf.as_slice()),
                    None => None,
                };
                assert(reply_view(bytes) == reply.bytes());
                if let Ok(seen) = index.apply_journal_updates(reply.header, bytes) {
                    n = seen;
                }
                proof {
                    if is_news(before, reply.header, reply.bytes()) {
                        lemma_records_len(reply.bytes()->0.skip(CURSOR_SIZE as int), 0);
                    }
                }
            }
            indices.insert(key_for(reply.drive), index);
        }
        *self = Engine { indices };
        assert(self@ =~= refreshed(old(self)@, *reply));
        n
    }

    /// Number of entries currently indexed across all drives.
    pub fn entry_count(&self) -> (count: usize)
        requires
            total_entries(self@) <= usize::MAX,
        ensures
            count == total_entries(self@),
    {
        let mut count: usize = 0;
        let ghost m = self@;
        assert(m.dom() =~= self.indices@.dom());
        proof {
            let codes = vstd::std_specs::iter::IteratorSpec::remaining(
                &vstd::std_specs::hash::spec_keys_iter(&self.indices),
            ).unref();
            assert(m.remove_keys(codes.take(0).to_set()) =~= m);
        }
        for code in it: self.indices.keys()
            invariant
                m == self@,
                m.dom().finite(),
                total_entries(m) <= usize::MAX,
                it.seq().unref().to_set() == m.dom(),
                it.seq().unref().no_duplicates(),
                it.seq() == vstd::std_specs::iter::IteratorSpec::remaining(
                    &vstd::std_specs::hash::spec_keys_iter(&self.indices),
                ),
                count + total_entries(
                    m.remove_keys(it.seq().unref().take(it.index() as int).to_set()),
                ) == total_entries(m),
        {
            let ghost codes = it.seq().unref();
            let ghost i = it.index() as int;
            let ghost rest = m.remove_keys(codes.take(i).to_set());
            proof {
                assert(codes.contains(*code));
                assert(m.contains_key(*code));
                assert(codes.take(i + 1) =~= codes.take(i).push(*code));
                assert(!codes.take(i).contains(*code));
                assert(rest.dom().subset_of(m.dom()));
                assert(rest.remove(*code) =~= m.remove_keys(codes.take(i + 1).to_set())) by {
                    assert forall|k: u32| codes.take(i + 1).contains(k) <==> (k == *code
                        || codes.take(i).contains(k)) by {
                        lemma_push_has(codes.take(i), *code, k);
                    }
                }
                lemma_total_remove(rest, *code);
            }
            if let Some(index) = self.indices.get(code) {
                assert(m[*code] == index@);
                assert(index@.entries.dom() =~= index.entries@.dom());
                count += index.entries.len();
            }
        }
        proof {
            let codes = vstd::std_specs::iter::IteratorSpec::remaining(
                &vstd::std_specs::hash::spec_keys_iter(&self.indices),
            ).unref();
            assert(codes.take(codes.len() as int) =~= codes);
            assert(m.remove_keys(codes.to_set()).dom() =~= Set::empty());
        }
        count
    }

    /// Takes up what happened to the watch of a drive, and says what to do next.
    /// `None` if the drive has no index: there is nothing to watch.
    pub fn watch_step(&mut self, drive: char, watcher: &mut Watcher, event: Event) -> (action: Option<
        Action,
    >)
        ensures
            if old(self)@.contains_key(key(drive)) {
                let v = old(self)@[key(drive)];
                let due = due_event(*old(watcher), v, event);
                &&& action == Some(action_after(*old(watcher), v, due))
                &&& *final(watcher) == watcher_after(*old(watcher), v, due)
                &&& final(self)@ == old(self)@.insert(
                    key(drive),
                    index_after(*old(watcher), v, due),
                )
            } else {
                &&& action is None
                &&& *final(watcher) == *old(watcher)
                &&& final(self)@ == old(self)@
            },
    {
        let mut taken = Engine::new();
        std::mem::swap(self, &mut taken);
        proof {
            use_type_invariant(&taken);
        }
        let Engine { mut indices } = taken;
        let mut action: Option<Action> = None;
        if let Some(index) = indices.remove(&key_for(drive)) {
            let mut index = index;
            assert(old(self)@[key(drive)] == index@);
            let due = match event {
                Event::Read(JournalRead::Batch { next, updates }) => {
                    if watcher.journal_id == index.journal_id && watcher.next_usn
                        == index.next_usn {
                        Event::Read(JournalRead::Batch { next, updates })
                    } else {
                        Event::Opened
                    }
                },
                other => other,
            };
            action = Some(watcher.step(&mut index, due));
            indices.insert(key_for(drive), index);
            *self = Engine { indices };
            assert(self@ =~= old(self)@.insert(key(drive), index@));
        } else {
            *self = Engine { indices };
            assert(self@ =~= old(self)@);
        }
        action
    }
}

/// What is taken up of what happened: changes that were read from elsewhere than where
/// the index stands, because it has moved since, are not; the watch then goes on from
/// where the index stands, as after opening the volume.
pub open spec fn due_event(watcher: Watcher, v: IndexView, event: Event) -> Event {
    match event {
        Event::Read(JournalRead::Batch { .. }) => if in_step(watcher, v) {
            event
        } else {
            Event::Opened
        },
        _ => event,
    }
}

/// After each step of the watch of a drive that others may bring up to date too, the
/// watch is in step with the index, or has left the index as it was.
pub proof fn law_watch_is_in_step_or_touches_nothing(watcher: Watcher, v: IndexView, event: Event)
    ensures
        ({
            let due = due_event(watcher, v, event);
            ||| in_step(watcher_after(watcher, v, due), index_after(watcher, v, due))
            ||| index_after(watcher, v, due) == v
        }),
{
    let due = due_event(watcher, v, event);
    if in_step(watcher, v) {
        law_in_step_is_kept(watcher, v, due);
    }
}

} // verus!
