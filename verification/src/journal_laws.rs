//! What the replies of a volume do to an index, record by record: of all that is said
//! about a number, what is said last counts.

use vstd::prelude::*;

use crate::enumerate::all_indexed;
use crate::journal::{
    all_updated, brought_up, caught_up, decoded, is_lost, read_view, reply_records, seen, signed,
    update_of, updates_of, JournalHeader, JournalRead, Update, UpdateView,
};
use crate::mft::{EntryView, IndexView};
use crate::usn::{le, records, RecordView};
use crate::usn_laws::{has_number, law_writing_undoes_reading, lemma_bounds};

verus! {

/// The record tells of a creation, a deletion or a new name.
pub open spec fn matters(record: RecordView) -> bool {
    record.reason & 0x2300 != 0
}

/// The bits of a reason.
proof fn lemma_reason(reason: u32)
    ensures
        reason & 0x2300 != 0 <==> reason & 0x200 != 0 || reason & (0x100u32 | 0x2000u32) != 0,
        reason & 0x2300 != 0 <==> reason & 0x200 != 0 || reason & 0x100 != 0 || reason & 0x2000
            != 0,
{
    assert(reason & 0x2300 != 0 <==> reason & 0x200 != 0 || reason & (0x100u32 | 0x2000u32) != 0)
        by (bit_vector);
    assert(reason & 0x2300 != 0 <==> reason & 0x200 != 0 || reason & 0x100 != 0 || reason & 0x2000
        != 0) by (bit_vector);
}

/// A record that does not matter stands for no change.
proof fn lemma_update_of(record: RecordView)
    ensures
        update_of(record) is Some <==> matters(record),
        update_of(record) matches Some(u) ==> {
            &&& u.frn == record.frn
            &&& u.is_delete <==> record.reason & 0x200 != 0
            &&& u.name == record.name
            &&& !u.is_delete ==> u.parent == record.parent
            &&& u.is_dir <==> record.attributes & 0x10 != 0
        },
{
    lemma_reason(record.reason);
}

/// What is left of the records about a number, if the `k`-th is the last that matters.
proof fn lemma_last_counts(v: IndexView, list: Seq<RecordView>, k: int)
    requires
        0 <= k < list.len(),
        matters(list[k]),
        forall|j: int|
            k < j < list.len() && (#[trigger] list[j]).frn == list[k].frn ==> !matters(list[j]),
    ensures
        ({
            let after = all_updated(v, updates_of(list)).entries;
            let frn = list[k].frn;
            if list[k].reason & 0x200 != 0 {
                !after.contains_key(frn)
            } else {
                after.contains_key(frn) && after[frn] == (EntryView {
                    parent: list[k].parent,
                    name: list[k].name,
                    is_dir: list[k].attributes & 0x10 != 0,
                })
            }
        }),
    decreases list.len(),
{
    let before = list.drop_last();
    let last = list.last();
    lemma_update_of(last);
    if matters(last) {
        assert(updates_of(list).drop_last() =~= updates_of(before));
    }
    if k < list.len() - 1 {
        assert forall|j: int|
            k < j < before.len() && (#[trigger] before[j]).frn == before[k].frn implies !matters(
            before[j],
        ) by {
            assert(list[j] == before[j]);
        }
        lemma_last_counts(v, before, k);
        assert(list[list.len() - 1] == last);
    }
}

/// A number about which nothing matters is left alone.
proof fn lemma_others_stay(v: IndexView, list: Seq<RecordView>, frn: u64)
    requires
        forall|j: int| 0 <= j < list.len() && (#[trigger] list[j]).frn == frn ==> !matters(list[j]),
    ensures
        ({
            let after = all_updated(v, updates_of(list)).entries;
            &&& after.contains_key(frn) <==> v.entries.contains_key(frn)
            &&& after.contains_key(frn) ==> after[frn] == v.entries[frn]
        }),
    decreases list.len(),
{
    if list.len() > 0 {
        let before = list.drop_last();
        let last = list.last();
        lemma_update_of(last);
        assert(list[list.len() - 1] == last);
        if matters(last) {
            assert(updates_of(list).drop_last() =~= updates_of(before));
        }
        assert forall|j: int| 0 <= j < before.len() && (#[trigger] before[j]).frn == frn implies
            !matters(before[j]) by {
            assert(list[j] == before[j]);
        }
        lemma_others_stay(v, before, frn);
    }
}

/// Changes leave the drive and the journal of an index as they are.
proof fn lemma_rest_stays(v: IndexView, list: Seq<RecordView>)
    ensures
        all_updated(v, updates_of(list)).drive == v.drive,
        all_updated(v, updates_of(list)).journal_id == v.journal_id,
    decreases list.len(),
{
    if list.len() > 0 {
        lemma_rest_stays(v, list.drop_last());
        if update_of(list.last()) is Some {
            assert(updates_of(list).drop_last() =~= updates_of(list.drop_last()));
        }
    }
}

/// The journal, asked from the index's position on, still reaches back that far and is
/// the same; its reply holds a position and, behind that, records.
pub open spec fn is_fresh(v: IndexView, header: Option<JournalHeader>, reply: Seq<u8>) -> bool {
    &&& header matches Some(h) && h.journal_id == v.journal_id && h.lowest_valid_usn <= v.next_usn
    &&& reply.len() >= 8
}

/// Whatever was deleted is gone: if the last record about a number that matters tells of
/// its deletion, be it a file or a directory, the index no longer holds it.
pub proof fn law_deleted_is_gone(
    v: IndexView,
    header: Option<JournalHeader>,
    reply: Seq<u8>,
    list: Seq<RecordView>,
    k: int,
)
    requires
        is_fresh(v, header, reply),
        list == records(reply.skip(8), 0),
        0 <= k < list.len(),
        list[k].reason & 0x200 != 0,
        forall|j: int|
            k < j < list.len() && (#[trigger] list[j]).frn == list[k].frn ==> !matters(list[j]),
    ensures
        !brought_up(v, header, Some(reply)).entries.contains_key(list[k].frn),
{
    lemma_reason(list[k].reason);
    lemma_last_counts(v, list, k);
}

/// Whatever was created or renamed is there: if the last record about a number that
/// matters tells of its creation or its new name, and not of its deletion, the index holds
/// it with the name, the parent and the kind that the record gives.
pub proof fn law_created_is_there(
    v: IndexView,
    header: Option<JournalHeader>,
    reply: Seq<u8>,
    list: Seq<RecordView>,
    k: int,
)
    requires
        is_fresh(v, header, reply),
        list == records(reply.skip(8), 0),
        0 <= k < list.len(),
        list[k].reason & 0x100 != 0 || list[k].reason & 0x2000 != 0,
        list[k].reason & 0x200 == 0,
        forall|j: int|
            k < j < list.len() && (#[trigger] list[j]).frn == list[k].frn ==> !matters(list[j]),
    ensures
        ({
            let after = brought_up(v, header, Some(reply)).entries;
            let frn = list[k].frn;
            &&& after.contains_key(frn)
            &&& after[frn].parent == list[k].parent
            &&& after[frn].name == list[k].name
            &&& after[frn].is_dir <==> list[k].attributes & 0x10 != 0
        }),
{
    lemma_reason(list[k].reason);
    lemma_last_counts(v, list, k);
}

/// What a reply does not tell of stays: numbers about which no record matters, the drive
/// and the journal. The position moves to the one that the reply starts with.
pub proof fn law_nothing_else_changes(
    v: IndexView,
    header: Option<JournalHeader>,
    reply: Seq<u8>,
    frn: u64,
)
    requires
        is_fresh(v, header, reply),
    ensures
        ({
            let list = records(reply.skip(8), 0);
            let after = brought_up(v, header, Some(reply));
            &&& (forall|j: int|
                0 <= j < list.len() && (#[trigger] list[j]).frn == frn ==> !matters(list[j])) ==> {
                &&& after.entries.contains_key(frn) <==> v.entries.contains_key(frn)
                &&& after.entries.contains_key(frn) ==> after.entries[frn] == v.entries[frn]
            }
            &&& after.drive == v.drive
            &&& after.journal_id == v.journal_id
            &&& has_number(
                reply,
                0,
                (if after.next_usn >= 0 {
                    after.next_usn as nat
                } else {
                    (after.next_usn + 0x1_0000_0000_0000_0000) as nat
                }),
                8,
            )
            &&& seen(v, header, Some(reply)) == list.len()
        }),
{
    let list = records(reply.skip(8), 0);
    if forall|j: int| 0 <= j < list.len() && (#[trigger] list[j]).frn == frn ==> !matters(list[j]) {
        lemma_others_stay(v, list, frn);
    }
    lemma_rest_stays(v, list);
    lemma_bounds();
    law_writing_undoes_reading(reply, 0, 8);
}

/// A position is read as the number of two's complement that its bytes stand for.
pub proof fn law_positions_are_signed(x: i64)
    ensures
        x >= 0 ==> signed(x as nat) == x,
        x < 0 ==> signed((x + 0x1_0000_0000_0000_0000) as nat) == x,
{
}

/// A journal that was asked in vain, is another one, or no longer reaches back to the
/// index's position, is lost, and no other is; a lost one, a read that failed, and a reply
/// too short for a position leave the index as it is.
pub proof fn law_lost_journals_change_nothing(
    v: IndexView,
    header: Option<JournalHeader>,
    reply: Option<Seq<u8>>,
)
    ensures
        header is None ==> is_lost(header, v.journal_id, v.next_usn),
        header matches Some(h) ==> (is_lost(header, v.journal_id, v.next_usn) <==> h.journal_id
            != v.journal_id || v.next_usn < h.lowest_valid_usn),
        is_lost(header, v.journal_id, v.next_usn) ==> brought_up(v, header, reply) == v,
        reply is None ==> brought_up(v, header, reply) == v,
        reply matches Some(buf) && buf.len() < 8 ==> brought_up(v, header, reply) == v,
        is_lost(header, v.journal_id, v.next_usn) || reply is None ==> seen(v, header, reply) == 0,
{
}

/// A reply that is decoded first and applied later does to an index what it does at once;
/// a read that failed is a stale one, and a reply too short for a position brings nothing
/// and does not move it.
pub proof fn law_decoding_first_makes_no_difference(
    v: IndexView,
    header: Option<JournalHeader>,
    reply: Seq<u8>,
    start_usn: i64,
)
    ensures
        is_fresh(v, header, reply) ==> {
            &&& decoded(Some(reply), start_usn) matches Some((next, updates))
            &&& caught_up(v, next, updates) == brought_up(v, header, Some(reply))
        },
        decoded(None, start_usn) is None,
        reply.len() < 8 ==> {
            &&& decoded(Some(reply), start_usn) matches Some((next, updates))
            &&& next == start_usn
            &&& updates.len() == 0
        },
{
}

/// What is said of a batch of changes is said of its fields.
pub proof fn law_changes_are_seen_as_they_are(next: i64, updates: Vec<Update>)
    ensures
        read_view(JournalRead::Stale) is None,
        ({
            &&& read_view(JournalRead::Batch { next, updates }) matches Some((position, list))
            &&& position == next
            &&& list.len() == updates@.len()
            &&& forall|i: int|
                0 <= i < list.len() ==> {
                    let view = #[trigger] list[i];
                    &&& view.frn == updates@[i].frn
                    &&& view.parent == updates@[i].parent
                    &&& view.name == updates@[i].name@
                    &&& view.is_dir == updates@[i].is_dir
                    &&& view.is_delete == updates@[i].is_delete
                }
        }),
{
}

/// The changes of a batch are applied one after the other: a deletion takes the entry of
/// its number away, and any other change gives it the one that it carries.
pub proof fn law_one_more_change(
    v: IndexView,
    next: i64,
    updates: Seq<UpdateView>,
    update: UpdateView,
)
    ensures
        ({
            let before = caught_up(v, next, updates).entries;
            let after = caught_up(v, next, updates.push(update));
            &&& caught_up(v, next, Seq::empty()).entries == v.entries
            &&& after.next_usn == next
            &&& update.is_delete ==> after.entries == before.remove(update.frn)
            &&& !update.is_delete ==> after.entries == before.insert(
                update.frn,
                EntryView { parent: update.parent, name: update.name, is_dir: update.is_dir },
            )
        }),
{
    assert(updates.push(update).drop_last() =~= updates);
}

/// The records of a reply are those behind its first eight bytes.
pub proof fn law_records_follow_the_position(position: Seq<u8>, body: Seq<u8>)
    requires
        position.len() == 8,
    ensures
        reply_records(position + body) == records(body, 0),
        le(position + body, 0, 8) == le(position, 0, 8),
{
    assert((position + body).skip(8) =~= body);
    reveal_with_fuel(le, 9);
}

/// A table that is enumerated is indexed record by record: the last record about a number
/// gives its entry, and a number that no record is about is left alone.
pub proof fn law_enumerated_is_there(v: IndexView, list: Seq<RecordView>, frn: u64)
    ensures
        ({
            let after = all_indexed(v, list);
            &&& forall|k: int|
                #![trigger list[k]]
                0 <= k < list.len() && list[k].frn == frn && (forall|j: int|
                    k < j < list.len() ==> (#[trigger] list[j]).frn != frn) ==> {
                    &&& after.entries.contains_key(frn)
                    &&& after.entries[frn].parent == list[k].parent
                    &&& after.entries[frn].name == list[k].name
                    &&& after.entries[frn].is_dir <==> list[k].attributes & 0x10 != 0
                }
            &&& (forall|j: int| 0 <= j < list.len() ==> (#[trigger] list[j]).frn != frn) ==> {
                &&& after.entries.contains_key(frn) <==> v.entries.contains_key(frn)
                &&& after.entries.contains_key(frn) ==> after.entries[frn] == v.entries[frn]
            }
            &&& after.drive == v.drive
            &&& after.journal_id == v.journal_id
            &&& after.next_usn == v.next_usn
        }),
    decreases list.len(),
{
    if list.len() > 0 {
        let before = list.drop_last();
        let after = all_indexed(v, list);
        law_enumerated_is_there(v, before, frn);
        assert(list[list.len() - 1] == list.last());
        assert forall|k: int|
            #![trigger list[k]]
            0 <= k < list.len() && list[k].frn == frn && (forall|j: int|
                k < j < list.len() ==> (#[trigger] list[j]).frn != frn) implies {
            &&& after.entries.contains_key(frn)
            &&& after.entries[frn].parent == list[k].parent
            &&& after.entries[frn].name == list[k].name
            &&& after.entries[frn].is_dir <==> list[k].attributes & 0x10 != 0
        } by {
            if k < list.len() - 1 {
                assert(before[k] == list[k]);
                assert forall|j: int| k < j < before.len() implies (#[trigger] before[j]).frn
                    != frn by {
                    assert(list[j] == before[j]);
                }
            }
        }
        if forall|j: int| 0 <= j < list.len() ==> (#[trigger] list[j]).frn != frn {
            assert forall|j: int| 0 <= j < before.len() implies (#[trigger] before[j]).frn
                != frn by {
                assert(list[j] == before[j]);
            }
        }
    }
}

} // verus!
