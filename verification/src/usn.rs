//! The replies of the NTFS control codes: buffers of USN records, each headed by
//! the position to go on from.

use vstd::prelude::*;

use crate::utf16::decode_lossy;
#[allow(unused_imports)]
use crate::utf16::utf16_lossy;

verus! {

/// The number that the `n` bytes of `buf` from `at` on encode, least significant
/// byte first.
pub open spec fn le(buf: Seq<u8>, at: int, n: nat) -> nat
    decreases n,
{
    if n == 0 {
        0
    } else {
        buf[at] as nat + 256 * le(buf, at + 1, (n - 1) as nat)
    }
}

/// Size of a record's fixed part, and the least that may be left of a buffer for
/// another record to be looked for. The header's fields end at byte 60; their
/// alignment rounds that up.
pub const HEADER_SIZE: usize = 64;

/// The major version of the records that are understood.
pub const RECORD_VERSION: u16 = 2;

/// What is kept of a USN record.
pub struct UsnRecord {
    pub file_reference_number: u64,
    pub parent_file_reference_number: u64,
    pub reason: u32,
    pub file_attributes: u32,
    pub name: String,
}

/// A record with its name as text.
pub ghost struct RecordView {
    pub frn: u64,
    pub parent: u64,
    pub reason: u32,
    pub attributes: u32,
    pub name: Seq<char>,
}

impl View for UsnRecord {
    type V = RecordView;

    open spec fn view(&self) -> RecordView {
        RecordView {
            frn: self.file_reference_number,
            parent: self.parent_file_reference_number,
            reason: self.reason,
            attributes: self.file_attributes,
            name: self.name@,
        }
    }
}

/// The records that a list holds, as views.
pub open spec fn record_views(records: Seq<UsnRecord>) -> Seq<RecordView> {
    Seq::new(records.len(), |i: int| records[i]@)
}

/// The UTF-16 units in the `len` bytes of `buf` from `at` on. An odd last byte
/// belongs to no unit.
pub open spec fn units_at(buf: Seq<u8>, at: int, len: nat) -> Seq<u16> {
    Seq::new(len / 2, |i: int| le(buf, at + 2 * i, 2) as u16)
}

/// The record at `at`, if it is of the understood version and its name lies inside
/// the record.
pub open spec fn record_at(buf: Seq<u8>, at: int) -> Option<RecordView> {
    let name_len = le(buf, at + 56, 2);
    let name_at = le(buf, at + 58, 2);
    if le(buf, at + 4, 2) == RECORD_VERSION && name_at + name_len <= le(buf, at, 4) {
        Some(
            RecordView {
                frn: le(buf, at + 8, 8) as u64,
                parent: le(buf, at + 16, 8) as u64,
                reason: le(buf, at + 40, 4) as u32,
                attributes: le(buf, at + 52, 4) as u32,
                name: utf16_lossy(units_at(buf, at + name_at, name_len)),
            },
        )
    } else {
        None
    }
}

/// The records in `buf` from `at` on. The walk goes from record to record by their
/// lengths, and ends where no whole header is left, at a length of zero, or at a
/// record that would reach beyond the buffer.
pub open spec fn records(buf: Seq<u8>, at: int) -> Seq<RecordView>
    decreases buf.len() - at,
{
    let len = le(buf, at, 4);
    if at + HEADER_SIZE > buf.len() || len == 0 || at + len > buf.len() {
        Seq::empty()
    } else {
        match record_at(buf, at) {
            Some(record) => seq![record] + records(buf, at + len),
            None => records(buf, at + len),
        }
    }
}

/// A buffer holds no more records than bytes.
pub proof fn lemma_records_len(buf: Seq<u8>, at: int)
    requires
        0 <= at <= buf.len(),
    ensures
        records(buf, at).len() <= buf.len() - at,
    decreases buf.len() - at,
{
    let len = le(buf, at, 4);
    if at + HEADER_SIZE <= buf.len() && len != 0 && at + len <= buf.len() {
        lemma_records_len(buf, at + len);
    }
}

/// Reads two bytes, least significant first.
pub fn read_u16(buf: &[u8], at: usize) -> (v: u16)
    requires
        at + 2 <= buf.len(),
    ensures
        v == le(buf@, at as int, 2),
{
    proof {
        reveal_with_fuel(le, 3);
    }
    buf[at] as u16 + 256 * (buf[at + 1] as u16)
}

/// Reads four bytes, least significant first.
pub fn read_u32(buf: &[u8], at: usize) -> (v: u32)
    requires
        at + 4 <= buf.len(),
    ensures
        v == le(buf@, at as int, 4),
{
    proof {
        reveal_with_fuel(le, 5);
    }
    buf[at] as u32 + 0x100 * (buf[at + 1] as u32) + 0x1_0000 * (buf[at + 2] as u32) + 0x100_0000 * (
    buf[at + 3] as u32)
}

/// Reads eight bytes, least significant first.
pub fn read_u64(buf: &[u8], at: usize) -> (v: u64)
    requires
        at + 8 <= buf.len(),
    ensures
        v == le(buf@, at as int, 8),
{
    let low = read_u32(buf, at);
    let high = read_u32(buf, at + 4);
    proof {
        reveal_with_fuel(le, 9);
    }
    low as u64 + 0x1_0000_0000 * (high as u64)
}

/// Reads the UTF-16 units in the `len` bytes from `at` on.
fn read_units(buf: &[u8], at: usize, len: usize) -> (units: Vec<u16>)
    requires
        at + len <= buf.len(),
    ensures
        units@ == units_at(buf@, at as int, len as nat),
{
    let mut units: Vec<u16> = Vec::new();
    let mut i: usize = 0;
    while i < len / 2
        invariant
            i <= len / 2,
            at + len <= buf.len(),
            units@ == units_at(buf@, at as int, len as nat).take(i as int),
        decreases len / 2 - i,
    {
        units.push(read_u16(buf, at + 2 * i));
        i += 1;
    }
    units
}

/// Reads the record at `at`.
fn read_record(buf: &[u8], at: usize) -> (record: Option<UsnRecord>)
    requires
        at + HEADER_SIZE <= buf.len(),
        at + le(buf@, at as int, 4) <= buf.len(),
    ensures
        record is Some <==> record_at(buf@, at as int) is Some,
        record matches Some(r) ==> Some(r@) == record_at(buf@, at as int),
{
    let len = read_u32(buf, at);
    let name_len = read_u16(buf, at + 56);
    let name_at = read_u16(buf, at + 58);
    if read_u16(buf, at + 4) != RECORD_VERSION || name_at as u32 + name_len as u32 > len {
        return None;
    }
    let units = read_units(buf, at + name_at as usize, name_len as usize);
    Some(
        UsnRecord {
            file_reference_number: read_u64(buf, at + 8),
            parent_file_reference_number: read_u64(buf, at + 16),
            reason: read_u32(buf, at + 40),
            file_attributes: read_u32(buf, at + 52),
            name: decode_lossy(&units),
        },
    )
}

/// Parses a buffer of USN records.
pub fn parse_usn_records(buf: &[u8]) -> (found: Vec<UsnRecord>)
    ensures
        record_views(found@) == records(buf@, 0),
{
    let mut found: Vec<UsnRecord> = Vec::new();
    let mut at: usize = 0;
    while buf.len() - at >= HEADER_SIZE
        invariant_except_break
            at <= buf@.len(),
            record_views(found@) + records(buf@, at as int) == records(buf@, 0),
        ensures
            record_views(found@) == records(buf@, 0),
        decreases buf@.len() - at,
    {
        let len = read_u32(buf, at) as usize;
        if len == 0 || len > buf.len() - at {
            assert(record_views(found@) + Seq::<RecordView>::empty() == record_views(found@));
            break;
        }
        let ghost before = record_views(found@);
        if let Some(record) = read_record(buf, at) {
            found.push(record);
            assert(record_views(found@) == before.push(record@));
            assert(before + (seq![record@] + records(buf@, at + len)) == before.push(record@)
                + records(buf@, at + len));
        }
        at += len;
    }
    found
}

} // verus!
