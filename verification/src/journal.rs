//! The change journal of a volume: what one read of it says, and how an index takes
//! it up.

use vstd::prelude::*;
use vstd::slice::slice_subrange;

use crate::mft::Index;
#[allow(unused_imports)]
use crate::mft::{added, removed, EntryView, IndexView};
use crate::usn::{parse_usn_records, read_u64, UsnRecord};
#[allow(unused_imports)]
use crate::usn::{le, record_views, records, RecordView};

verus! {

/// Attribute bit of a directory.
pub const FILE_ATTRIBUTE_DIRECTORY: u32 = 0x10;

/// Reason bit of a new file or directory.
pub const USN_REASON_FILE_CREATE: u32 = 0x100;

/// Reason bit of a deleted file or directory.
pub const USN_REASON_FILE_DELETE: u32 = 0x200;

/// Reason bit of a file or directory that was renamed to the record's name.
pub const USN_REASON_RENAME_NEW_NAME: u32 = 0x2000;

/// Bytes at the start of a reply that say where to go on.
pub const CURSOR_SIZE: usize = 8;

/// One parsed journal change. The name is carried for deletes too, since removing
/// from the extension index needs it.
pub struct Update {
    pub frn: u64,
    pub parent: u64,
    pub name: String,
    pub is_dir: bool,
    pub is_delete: bool,
}

/// A change with its name as text.
pub ghost struct UpdateView {
    pub frn: u64,
    pub parent: u64,
    pub name: Seq<char>,
    pub is_dir: bool,
    pub is_delete: bool,
}

impl View for Update {
    type V = UpdateView;

    open spec fn view(&self) -> UpdateView {
        UpdateView {
            frn: self.frn,
            parent: self.parent,
            name: self.name@,
            is_dir: self.is_dir,
            is_delete: self.is_delete,
        }
    }
}

/// The changes of a list, as views.
pub open spec fn update_views(updates: Seq<Update>) -> Seq<UpdateView> {
    Seq::new(updates.len(), |i: int| updates[i]@)
}

/// What the volume reports of its journal.
#[derive(Clone, Copy)]
pub struct JournalHeader {
    pub journal_id: u64,
    pub lowest_valid_usn: i64,
}

/// Outcome of one journal read.
pub enum JournalRead {
    /// New records arrived. `next` is the cursor to resume from; `updates` are the
    /// create/delete/rename changes to apply (empty if all records were reasons we
    /// ignore, and `next` still advances).
    Batch { next: i64, updates: Vec<Update> },
    /// Journal id changed or our cursor fell off the retained window
    /// (wrap-around / truncation / `fsutil usn deletejournal` / chkdsk): the
    /// in-memory index is stale and must be rebuilt from the MFT.
    Stale,
}

/// A read with its changes as views; `None` is a stale one.
pub open spec fn read_view(read: JournalRead) -> Option<(i64, Seq<UpdateView>)> {
    match read {
        JournalRead::Batch { next, updates } => Some((next, update_views(updates@))),
        JournalRead::Stale => None,
    }
}

/// The number of two's complement that eight bytes with the value `n` encode.
pub open spec fn signed(n: nat) -> int {
    if n < 0x8000_0000_0000_0000 {
        n as int
    } else {
        n - 0x1_0000_0000_0000_0000
    }
}

/// The records of a reply, behind its cursor.
pub open spec fn reply_records(reply: Seq<u8>) -> Seq<RecordView> {
    records(reply.skip(CURSOR_SIZE as int), 0)
}

/// The record is of a directory.
pub open spec fn is_directory(record: RecordView) -> bool {
    record.attributes & FILE_ATTRIBUTE_DIRECTORY != 0
}

/// The change that a record stands for, if it is one that matters to an index.
pub open spec fn update_of(record: RecordView) -> Option<UpdateView> {
    if record.reason & USN_REASON_FILE_DELETE != 0 {
        Some(
            UpdateView {
                frn: record.frn,
                parent: 0,
                name: record.name,
                is_dir: is_directory(record),
                is_delete: true,
            },
        )
    } else if record.reason & (USN_REASON_FILE_CREATE | USN_REASON_RENAME_NEW_NAME) != 0 {
        Some(
            UpdateView {
                frn: record.frn,
                parent: record.parent,
                name: record.name,
                is_dir: is_directory(record),
                is_delete: false,
            },
        )
    } else {
        None
    }
}

/// The changes that a list of records stands for, in order.
pub open spec fn updates_of(list: Seq<RecordView>) -> Seq<UpdateView>
    decreases list.len(),
{
    if list.len() == 0 {
        Seq::empty()
    } else {
        let before = updates_of(list.drop_last());
        match update_of(list.last()) {
            Some(update) => before.push(update),
            None => before,
        }
    }
}

/// The journal can no longer tell what changed since `start_usn`: it could not be
/// queried, it is another one, or it no longer reaches back that far.
pub open spec fn is_lost(header: Option<JournalHeader>, journal_id: u64, start_usn: i64) -> bool {
    match header {
        Some(h) => h.journal_id != journal_id || start_usn < h.lowest_valid_usn,
        None => true,
    }
}

/// What a reply to a read from `start_usn` on says. `None` is a read that failed.
pub open spec fn decoded(reply: Option<Seq<u8>>, start_usn: i64) -> Option<
    (i64, Seq<UpdateView>),
> {
    match reply {
        Some(buf) => if buf.len() < CURSOR_SIZE {
            Some((start_usn, Seq::empty()))
        } else {
            Some((signed(le(buf, 0, 8)) as i64, updates_of(reply_records(buf))))
        },
        None => None,
    }
}

/// The index after one change.
pub open spec fn updated(v: IndexView, update: UpdateView) -> IndexView {
    if update.is_delete {
        removed(v, update.frn, update.name)
    } else {
        added(
            v,
            update.frn,
            EntryView { parent: update.parent, name: update.name, is_dir: update.is_dir },
        )
    }
}

/// The index after a list of changes, one after the other.
pub open spec fn all_updated(v: IndexView, updates: Seq<UpdateView>) -> IndexView
    decreases updates.len(),
{
    if updates.len() == 0 {
        v
    } else {
        updated(all_updated(v, updates.drop_last()), updates.last())
    }
}

/// The index after a batch of changes, at the end of which the cursor stands.
pub open spec fn caught_up(v: IndexView, next: i64, updates: Seq<UpdateView>) -> IndexView {
    IndexView { next_usn: next, ..all_updated(v, updates) }
}

/// The journal, asked from the index's cursor on, had an answer that goes beyond a
/// cursor.
pub open spec fn is_news(
    v: IndexView,
    header: Option<JournalHeader>,
    reply: Option<Seq<u8>>,
) -> bool {
    &&& !is_lost(header, v.journal_id, v.next_usn)
    &&& reply matches Some(buf) && buf.len() >= CURSOR_SIZE
}

/// The index after what the journal answered.
pub open spec fn brought_up(
    v: IndexView,
    header: Option<JournalHeader>,
    reply: Option<Seq<u8>>,
) -> IndexView {
    if is_news(v, header, reply) {
        let buf = reply->0;
        caught_up(v, signed(le(buf, 0, 8)) as i64, updates_of(reply_records(buf)))
    } else {
        v
    }
}

/// The number of records that the journal answered.
pub open spec fn seen(v: IndexView, header: Option<JournalHeader>, reply: Option<Seq<u8>>) -> nat {
    if is_news(v, header, reply) {
        reply_records(reply->0).len()
    } else {
        0
    }
}

/// The bytes that a reply brought.
pub open spec fn reply_view(reply: Option<&[u8]>) -> Option<Seq<u8>> {
    match reply {
        Some(buf) => Some(buf@),
        None => None,
    }
}

/// Whether the journal can no longer tell what changed since `start_usn`. `header`
/// is what the volume reports of its journal, if it could be asked.
pub fn journal_lost(header: Option<JournalHeader>, journal_id: u64, start_usn: i64) -> (r: bool)
    ensures
        r == is_lost(header, journal_id, start_usn),
{
    match header {
        Some(h) => h.journal_id != journal_id || start_usn < h.lowest_valid_usn,
        None => true,
    }
}

/// Reads eight bytes as a number of two's complement, least significant first.
fn read_i64(buf: &[u8], at: usize) -> (v: i64)
    requires
        at + 8 <= buf.len(),
    ensures
        v == signed(le(buf@, at as int, 8)),
{
    let n = read_u64(buf, at);
    if n < 0x8000_0000_0000_0000 {
        n as i64
    } else {
        -((0xFFFF_FFFF_FFFF_FFFF - n) as i64) - 1
    }
}

/// Whether the record is of a directory.
pub fn record_is_dir(record: &UsnRecord) -> (r: bool)
    ensures
        r == is_directory(record@),
{
    record.file_attributes & FILE_ATTRIBUTE_DIRECTORY != 0
}

/// The records of a reply, behind its cursor.
pub fn records_of_reply(reply: &[u8]) -> (found: Vec<UsnRecord>)
    requires
        reply@.len() >= CURSOR_SIZE,
    ensures
        record_views(found@) == reply_records(reply@),
{
    let rest = slice_subrange(reply, CURSOR_SIZE, reply.len());
    assert(rest@ == reply@.skip(CURSOR_SIZE as int));
    parse_usn_records(rest)
}

/// The changes that a list of records stands for.
fn changes(list: Vec<UsnRecord>) -> (updates: Vec<Update>)
    ensures
        update_views(updates@) == updates_of(record_views(list@)),
{
    let mut updates: Vec<Update> = Vec::new();
    let ghost views = record_views(list@);
    assert(update_views(updates@) =~= updates_of(views.take(0)));
    for record in it: list
        invariant
            it.seq() == list@,
            views == record_views(list@),
            update_views(updates@) == updates_of(views.take(it.index() as int)),
    {
        let ghost before = update_views(updates@);
        let ghost i = it.index() as int;
        assert(views.take(i + 1).drop_last() == views.take(i));
        assert(views.take(i + 1).last() == record@);
        let is_dir = record_is_dir(&record);
        let frn = record.file_reference_number;
        let parent = record.parent_file_reference_number;
        let reason = record.reason;
        let ghost view = record@;
        let name = record.name;
        if reason & USN_REASON_FILE_DELETE != 0 {
            let update = Update { frn, parent: 0, name, is_dir, is_delete: true };
            assert(update_of(view) == Some(update@));
            updates.push(update);
            assert(update_views(updates@) =~= before.push(update@));
        } else if reason & (USN_REASON_FILE_CREATE | USN_REASON_RENAME_NEW_NAME) != 0 {
            let update = Update { frn, parent, name, is_dir, is_delete: false };
            assert(update_of(view) == Some(update@));
            updates.push(update);
            assert(update_views(updates@) =~= before.push(update@));
        }
    }
    assert(views.take(views.len() as int) == views);
    updates
}

/// Decodes the reply to a journal read from `start_usn` on; `None` is a read that
/// failed. A reply too short for a cursor brings nothing and leaves the cursor where
/// it was.
pub fn decode_journal_reply(reply: Option<&[u8]>, start_usn: i64) -> (read: JournalRead)
    ensures
        read_view(read) == decoded(reply_view(reply), start_usn),
{
    match reply {
        Some(buf) => {
            if buf.len() < CURSOR_SIZE {
                let updates: Vec<Update> = Vec::new();
                assert(update_views(updates@) =~= Seq::empty());
                return JournalRead::Batch { next: start_usn, updates };
            }
            let next = read_i64(buf, 0);
            let updates = changes(records_of_reply(buf));
            JournalRead::Batch { next, updates }
        },
        None => JournalRead::Stale,
    }
}

/// What reading the journal from `start_usn` on came to: `header` is what the volume
/// reports of its journal, and `reply` what a read returned, if one was made and
/// succeeded.
pub fn journal_outcome(
    header: Option<JournalHeader>,
    journal_id: u64,
    start_usn: i64,
    reply: Option<&[u8]>,
) -> (read: JournalRead)
    ensures
        read_view(read) == (if is_lost(header, journal_id, start_usn) {
            None
        } else {
            decoded(reply_view(reply), start_usn)
        }),
{
    if journal_lost(header, journal_id, start_usn) {
        JournalRead::Stale
    } else {
        decode_journal_reply(reply, start_usn)
    }
}

impl Index {
    /// Applies one change.
    fn apply(&mut self, update: Update)
        ensures
            final(self)@ == updated(old(self)@, update@),
    {
        if update.is_delete {
            self.remove_indexed(update.frn, update.name.as_str());
        } else {
            self.add_indexed(update.frn, update.parent, update.name, update.is_dir);
        }
    }

    /// Applies a batch of changes, and moves the cursor behind it.
    pub fn catch_up(&mut self, next: i64, updates: Vec<Update>)
        ensures
            final(self)@ == caught_up(old(self)@, next, update_views(updates@)),
    {
        let ghost views = update_views(updates@);
        let ghost start = self@;
        assert(views.take(0) =~= Seq::empty());
        for update in it: updates
            invariant
                it.seq() == updates@,
                views == update_views(updates@),
                self@ == all_updated(start, views.take(it.index() as int)),
        {
            let ghost i = it.index() as int;
            assert(views.take(i + 1).drop_last() == views.take(i));
            assert(views.take(i + 1).last() == update@);
            self.apply(update);
        }
        assert(views.take(views.len() as int) == views);
        self.next_usn = next;
    }

    /// Applies what the journal holds behind the index's cursor, and says how many
    /// records that were. `Err` where the journal can no longer tell what changed:
    /// the index must be rebuilt.
    pub fn apply_journal_updates(
        &mut self,
        header: Option<JournalHeader>,
        reply: Option<&[u8]>,
    ) -> (r: Result<usize, ()>)
        ensures
            r is Ok <==> (!is_lost(header, old(self).journal_id, old(self).next_usn)
                && reply is Some),
            r matches Ok(n) ==> n == seen(old(self)@, header, reply_view(reply)),
            final(self)@ == brought_up(old(self)@, header, reply_view(reply)),
    {
        if journal_lost(header, self.journal_id, self.next_usn) {
            return Err(());
        }
        match reply {
            Some(buf) => {
                if buf.len() < CURSOR_SIZE {
                    return Ok(0);
                }
                let found = records_of_reply(buf);
                let seen = found.len();
                let updates = changes(found);
                self.catch_up(read_i64(buf, 0), updates);
                Ok(seen)
            },
            None => Err(()),
        }
    }
}

} // verus!
