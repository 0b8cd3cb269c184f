//! The enumeration of a master file table: a control code is repeated, each time
//! from where the last reply left off, until the volume says that there is no more.

use vstd::prelude::*;

use crate::journal::{record_is_dir, records_of_reply, CURSOR_SIZE};
#[allow(unused_imports)]
use crate::journal::{is_directory, reply_records};
use crate::mft::Index;
#[allow(unused_imports)]
use crate::mft::{added, EntryView, IndexView};
use crate::usn::{read_u64, UsnRecord};
#[allow(unused_imports)]
use crate::usn::{le, record_views, RecordView};

verus! {

/// The entry that a record describes.
pub open spec fn entry_of(record: RecordView) -> EntryView {
    EntryView { parent: record.parent, name: record.name, is_dir: is_directory(record) }
}

/// The index after a list of records, one after the other.
pub open spec fn all_indexed(v: IndexView, list: Seq<RecordView>) -> IndexView
    decreases list.len(),
{
    if list.len() == 0 {
        v
    } else {
        added(all_indexed(v, list.drop_last()), list.last().frn, entry_of(list.last()))
    }
}

/// What the volume answers to one request of the enumeration.
pub enum Reply<'a> {
    /// The bytes that it returned.
    Data(&'a [u8]),
    /// There is no more: the normal end.
    EndOfFile,
    /// The request failed, with this message.
    Failed(String),
}

/// What is to be done next.
pub enum Step {
    /// Ask again, from this FRN on.
    Ask(u64),
    /// The index is complete.
    Finish,
    /// Give up, with this message.
    Fail(String),
}

/// An enumeration under way.
pub struct Enumeration {
    pub index: Index,
    /// The FRN from which the next request is to go on.
    pub start: u64,
}

/// The message with which a failed request is reported.
pub open spec fn failure(message: Seq<char>) -> Seq<char> {
    "FSCTL_ENUM_USN_DATA failed: "@ + message
}

impl Enumeration {
    /// Begins the enumeration of a drive. The state of the journal at this time is
    /// recorded for later incremental reads.
    pub fn new(drive: char, journal_id: u64, next_usn: i64) -> (e: Self)
        ensures
            e.start == 0,
            e.index@ == (IndexView {
                drive,
                entries: Map::empty(),
                by_ext: Map::empty(),
                by_dotfile: Map::empty(),
                journal_id,
                next_usn,
            }),
    {
        let mut index = Index::default();
        index.drive = drive;
        index.journal_id = journal_id;
        index.next_usn = next_usn;
        Enumeration { index, start: 0 }
    }

    /// Takes up a reply.
    pub fn step(&mut self, reply: Reply) -> (next: Step)
        ensures
            match reply {
                Reply::Data(buf) => if buf@.len() < CURSOR_SIZE {
                    &&& next == Step::Finish
                    &&& *final(self) == *old(self)
                } else {
                    &&& next == Step::Ask(final(self).start)
                    &&& final(self).start == le(buf@, 0, 8)
                    &&& final(self).index@ == all_indexed(old(self).index@, reply_records(buf@))
                },
                Reply::EndOfFile => {
                    &&& next == Step::Finish
                    &&& *final(self) == *old(self)
                },
                Reply::Failed(message) => {
                    &&& next matches Step::Fail(text) && text@ == failure(message@)
                    &&& *final(self) == *old(self)
                },
            },
    {
        match reply {
            Reply::Data(buf) => {
                if buf.len() < CURSOR_SIZE {
                    return Step::Finish;
                }
                self.start = read_u64(buf, 0);
                self.take_up(records_of_reply(buf));
                Step::Ask(self.start)
            },
            Reply::EndOfFile => Step::Finish,
            Reply::Failed(message) => {
                let mut text = "FSCTL_ENUM_USN_DATA failed: ".to_owned();
                text.append(message.as_str());
                Step::Fail(text)
            },
        }
    }

    /// Indexes the records of a reply.
    fn take_up(&mut self, list: Vec<UsnRecord>)
        ensures
            final(self).start == old(self).start,
            final(self).index@ == all_indexed(old(self).index@, record_views(list@)),
    {
        let ghost views = record_views(list@);
        let ghost before = self.index@;
        let ghost start = self.start;
        assert(views.take(0) =~= Seq::empty());
        for record in it: list
            invariant
                it.seq() == list@,
                views == record_views(list@),
                self.start == start,
                self.index@ == all_indexed(before, views.take(it.index() as int)),
        {
            let ghost i = it.index() as int;
            assert(views.take(i + 1).drop_last() == views.take(i));
            assert(views.take(i + 1).last() == record@);
            let is_dir = record_is_dir(&record);
            self.index.add_indexed(
                record.file_reference_number,
                record.parent_file_reference_number,
                record.name,
                is_dir,
            );
        }
        assert(views.take(views.len() as int) == views);
    }
}

} // verus!
