//! What a buffer of USN records says: parsing undoes writing, and every number that is
//! read is that of its bytes.

use vstd::prelude::*;

use crate::usn::{le, record_at, record_views, records, units_at, RecordView, UsnRecord};
use crate::utf16::utf16_lossy;

verus! {

/// A number in `k` bytes, least significant first.
pub open spec fn le_bytes(n: nat, k: nat) -> Seq<u8>
    decreases k,
{
    if k == 0 {
        Seq::empty()
    } else {
        seq![(n % 256) as u8] + le_bytes(n / 256, (k - 1) as nat)
    }
}

/// One more than the largest number in `k` bytes.
pub open spec fn bound(k: nat) -> nat
    decreases k,
{
    if k == 0 {
        1
    } else {
        256 * bound((k - 1) as nat)
    }
}

/// `buf` holds a number in `k` bytes at `at`.
pub open spec fn has_number(buf: Seq<u8>, at: int, n: nat, k: nat) -> bool {
    buf.subrange(at, at + k) == le_bytes(n, k)
}

/// Reading gives back the number that was written.
pub proof fn law_reading_undoes_writing(buf: Seq<u8>, at: int, n: nat, k: nat)
    requires
        0 <= at,
        at + k <= buf.len(),
        n < bound(k),
        has_number(buf, at, n, k),
    ensures
        le(buf, at, k) == n,
    decreases k,
{
    if k > 0 {
        let bytes = le_bytes(n, k);
        assert(buf.subrange(at, at + k)[0] == bytes[0]);
        assert(buf[at] == n % 256);
        assert(buf.subrange(at + 1, at + k) =~= buf.subrange(at, at + k).skip(1));
        assert(le_bytes(n / 256, (k - 1) as nat) =~= bytes.skip(1));
        law_reading_undoes_writing(buf, at + 1, n / 256, (k - 1) as nat);
    }
}

/// Writing gives back the bytes that were read: different bytes are different numbers.
pub proof fn law_writing_undoes_reading(buf: Seq<u8>, at: int, k: nat)
    requires
        0 <= at,
        at + k <= buf.len(),
    ensures
        has_number(buf, at, le(buf, at, k), k),
        le(buf, at, k) < bound(k),
    decreases k,
{
    if k > 0 {
        law_writing_undoes_reading(buf, at + 1, (k - 1) as nat);
        let n = le(buf, at, k);
        assert(n % 256 == buf[at] && n / 256 == le(buf, at + 1, (k - 1) as nat));
        assert(buf.subrange(at, at + k) =~= seq![buf[at]] + buf.subrange(at + 1, at + k));
    } else {
        assert(buf.subrange(at, at + k) =~= Seq::empty());
    }
}

/// The largest numbers of two, four and eight bytes.
pub proof fn lemma_bounds()
    ensures
        bound(2) == 0x1_0000,
        bound(4) == 0x1_0000_0000,
        bound(8) == 0x1_0000_0000_0000_0000,
{
    reveal_with_fuel(bound, 9);
}

/// A record as it is written. Only records of version 2 are understood; the name starts
/// `name_at` bytes behind the start of the record, an odd byte at its end is no part of
/// it, and `len` reaches to where the next record starts.
pub ghost struct RawRecord {
    pub len: u32,
    pub version: u16,
    pub frn: u64,
    pub parent: u64,
    pub reason: u32,
    pub attributes: u32,
    pub name_at: u16,
    pub units: Seq<u16>,
    pub odd: bool,
}

impl RawRecord {
    /// The number of bytes of the name.
    pub open spec fn name_len(self) -> nat {
        if self.odd {
            2 * self.units.len() + 1
        } else {
            2 * self.units.len()
        }
    }
}

/// `buf` holds the record at `at`, with each field at its place, and the name, in UTF-16,
/// inside the record.
pub open spec fn has_record(buf: Seq<u8>, at: int, r: RawRecord) -> bool {
    &&& 0 <= at
    &&& r.len > 0
    &&& at + 64 <= buf.len()
    &&& at + r.len <= buf.len()
    &&& r.name_at + r.name_len() <= r.len
    &&& r.name_len() < 0x1_0000
    &&& has_number(buf, at, r.len as nat, 4)
    &&& has_number(buf, at + 4, r.version as nat, 2)
    &&& has_number(buf, at + 8, r.frn as nat, 8)
    &&& has_number(buf, at + 16, r.parent as nat, 8)
    &&& has_number(buf, at + 40, r.reason as nat, 4)
    &&& has_number(buf, at + 52, r.attributes as nat, 4)
    &&& has_number(buf, at + 56, r.name_len(), 2)
    &&& has_number(buf, at + 58, r.name_at as nat, 2)
    &&& forall|i: int|
        0 <= i < r.units.len() ==> has_number(
            buf,
            at + r.name_at + 2 * i,
            #[trigger] r.units[i] as nat,
            2,
        )
}

/// `buf` holds the records from `at` on, each directly behind the one before, and then
/// too little for another.
pub open spec fn has_records(buf: Seq<u8>, at: int, list: Seq<RawRecord>) -> bool
    decreases list.len(),
{
    if list.len() == 0 {
        buf.len() < at + 64
    } else {
        has_record(buf, at, list[0]) && has_records(buf, at + list[0].len, list.skip(1))
    }
}

/// What the records say: those of another version nothing.
pub open spec fn said_by(list: Seq<RawRecord>) -> Seq<RecordView>
    decreases list.len(),
{
    if list.len() == 0 {
        Seq::empty()
    } else if list[0].version != 2 {
        said_by(list.skip(1))
    } else {
        seq![
            RecordView {
                frn: list[0].frn,
                parent: list[0].parent,
                reason: list[0].reason,
                attributes: list[0].attributes,
                name: utf16_lossy(list[0].units),
            },
        ] + said_by(list.skip(1))
    }
}

/// Parsing undoes writing: records that were written one behind the other are read in
/// their order, each with the numbers and the name that it was written with, and nothing
/// else is read.
pub proof fn law_parsing_undoes_writing(buf: Seq<u8>, at: int, list: Seq<RawRecord>)
    requires
        has_records(buf, at, list),
    ensures
        records(buf, at) == said_by(list),
    decreases list.len(),
{
    if list.len() > 0 {
        lemma_record_reads_back(buf, at, list[0]);
        law_parsing_undoes_writing(buf, at + list[0].len, list.skip(1));
        assert(records(buf, at) =~= said_by(list));
    }
}

/// The same of one record.
proof fn lemma_record_reads_back(buf: Seq<u8>, at: int, r: RawRecord)
    requires
        has_record(buf, at, r),
    ensures
        le(buf, at, 4) == r.len,
        r.version != 2 ==> record_at(buf, at) is None,
        r.version == 2 ==> record_at(buf, at) == Some(
            RecordView {
                frn: r.frn,
                parent: r.parent,
                reason: r.reason,
                attributes: r.attributes,
                name: utf16_lossy(r.units),
            },
        ),
{
    lemma_bounds();
    law_reading_undoes_writing(buf, at, r.len as nat, 4);
    law_reading_undoes_writing(buf, at + 4, r.version as nat, 2);
    law_reading_undoes_writing(buf, at + 8, r.frn as nat, 8);
    law_reading_undoes_writing(buf, at + 16, r.parent as nat, 8);
    law_reading_undoes_writing(buf, at + 40, r.reason as nat, 4);
    law_reading_undoes_writing(buf, at + 52, r.attributes as nat, 4);
    law_reading_undoes_writing(buf, at + 56, r.name_len(), 2);
    law_reading_undoes_writing(buf, at + 58, r.name_at as nat, 2);
    let from = at + r.name_at;
    let units = units_at(buf, from, r.name_len());
    assert forall|i: int| 0 <= i < r.units.len() implies units[i] == #[trigger] r.units[i] by {
        assert(has_number(buf, at + r.name_at + 2 * i, r.units[i] as nat, 2));
        law_reading_undoes_writing(buf, from + 2 * i, r.units[i] as nat, 2);
    }
    assert(units =~= r.units);
}

/// The numbers of a record are those of its bytes, wherever it stands: records whose bytes
/// differ there have different numbers, and one whose bytes for the parent are those for
/// the number of another has that as its parent.
pub proof fn law_numbers_are_their_bytes(buf: Seq<u8>, at: int)
    requires
        0 <= at,
        at + 64 <= buf.len(),
        record_at(buf, at) is Some,
    ensures
        has_number(buf, at + 8, record_at(buf, at)->0.frn as nat, 8),
        has_number(buf, at + 16, record_at(buf, at)->0.parent as nat, 8),
        has_number(buf, at + 40, record_at(buf, at)->0.reason as nat, 4),
        has_number(buf, at + 52, record_at(buf, at)->0.attributes as nat, 4),
        has_number(buf, at + 4, 2, 2),
{
    lemma_bounds();
    law_writing_undoes_reading(buf, at + 8, 8);
    law_writing_undoes_reading(buf, at + 16, 8);
    law_writing_undoes_reading(buf, at + 40, 4);
    law_writing_undoes_reading(buf, at + 52, 4);
    law_writing_undoes_reading(buf, at + 4, 2);
}

/// A record whose name would reach beyond it says nothing, and is passed over.
pub proof fn law_record_with_a_misplaced_name_is_passed_over(
    buf: Seq<u8>,
    at: int,
    len: u32,
    name_at: u16,
    name_len: u16,
)
    requires
        0 <= at,
        at + 64 <= buf.len(),
        at + len <= buf.len(),
        len > 0,
        has_number(buf, at, len as nat, 4),
        has_number(buf, at + 56, name_len as nat, 2),
        has_number(buf, at + 58, name_at as nat, 2),
        name_at + name_len > len,
    ensures
        records(buf, at) == records(buf, at + len),
{
    lemma_bounds();
    law_reading_undoes_writing(buf, at, len as nat, 4);
    law_reading_undoes_writing(buf, at + 56, name_len as nat, 2);
    law_reading_undoes_writing(buf, at + 58, name_at as nat, 2);
}

/// What is said of records is said of their fields.
pub proof fn law_records_are_seen_as_they_are(list: Seq<UsnRecord>)
    ensures
        record_views(list).len() == list.len(),
        forall|i: int|
            0 <= i < list.len() ==> {
                let view = #[trigger] record_views(list)[i];
                &&& view.frn == list[i].file_reference_number
                &&& view.parent == list[i].parent_file_reference_number
                &&& view.reason == list[i].reason
                &&& view.attributes == list[i].file_attributes
                &&& view.name == list[i].name@
            },
{
}

/// Nothing is read where too little is left for a record, where its length is zero, or
/// where it would reach beyond the buffer.
pub proof fn law_parsing_ends(buf: Seq<u8>, at: int, len: u32)
    requires
        0 <= at,
        at + 64 > buf.len() || (has_number(buf, at, len as nat, 4) && (len == 0 || at + len
            > buf.len())),
    ensures
        records(buf, at) == Seq::<RecordView>::empty(),
{
    lemma_bounds();
    if at + 64 <= buf.len() {
        law_reading_undoes_writing(buf, at, len as nat, 4);
    }
}

} // verus!
