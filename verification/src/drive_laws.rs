//! What holds of several drives: letters tell them apart, each keeps its own index, what
//! is read of one changes only that, and a query of all of them asks each in turn.

use vstd::prelude::*;

use crate::buckets::lemma_push_has;
use crate::engine::{
    all_refreshed, all_seen, due_event, ensured, key, lemma_total_remove, refreshed, seen_by,
    total_entries, DriveReply,
};
use crate::journal::{brought_up, caught_up, seen, update_views, JournalRead, Update};
use crate::machine::{
    all_rows, all_scanned, is_cut, is_fan_out, last_failure, letters, scope_in, unscoped, usable,
    Attempt, Part, Scope,
};
use crate::mft::{Index, IndexView};
use crate::query_laws::law_drive_of_a_path;
use crate::search::{hit_views, Rule};
use crate::search_laws::law_counts_fit;
use crate::text::{lower, lowered};
use crate::utf16::utf16_lossy;
use crate::volume::{before_zero, indexable, indexable_letters, VolumeInfo};
use crate::watch::{action_after, index_after, watcher_after, Action, Event, Watcher};

verus! {

/// Two letters are the same drive if they differ at most in their case.
pub proof fn law_letters_tell_drives_apart(a: char, b: char)
    ensures
        key(a) == key(b) <==> lower(a) == lower(b),
{
}

/// An index that is there stays, and one that is not is the one that was built; no other
/// drive is touched.
pub proof fn law_indices_are_kept(
    m: Map<u32, IndexView>,
    drive: char,
    built: IndexView,
    other: u32,
)
    ensures
        ({
            let after = ensured(m, drive, built);
            &&& after.contains_key(key(drive))
            &&& m.contains_key(key(drive)) ==> after[key(drive)] == m[key(drive)]
            &&& !m.contains_key(key(drive)) ==> after[key(drive)] == built
            &&& other != key(drive) ==> (after.contains_key(other) <==> m.contains_key(other))
            &&& other != key(drive) && m.contains_key(other) ==> after[other] == m[other]
        }),
{
}

/// The bytes that a reply brought, if it brought any.
pub open spec fn brought(reply: DriveReply) -> Option<Seq<u8>> {
    match reply.reply {
        Some(buf) => Some(buf@),
        None => None,
    }
}

/// A reply that was read from where the index of its drive stands is applied to that index,
/// and its records are counted; any other changes nothing and counts for nothing. No other
/// drive is touched.
pub proof fn law_reply_is_applied_where_it_was_read(
    m: Map<u32, IndexView>,
    reply: DriveReply,
    other: u32,
)
    ensures
        ({
            let k = key(reply.drive);
            let due = m.contains_key(k) && m[k].next_usn == reply.start_usn;
            let after = refreshed(m, reply);
            &&& due ==> after.contains_key(k) && after[k] == brought_up(
                m[k],
                reply.header,
                brought(reply),
            ) && seen_by(m, reply) == seen(m[k], reply.header, brought(reply))
            &&& !due ==> after == m && seen_by(m, reply) == 0
            &&& other != k ==> (after.contains_key(other) <==> m.contains_key(other))
            &&& other != k && m.contains_key(other) ==> after[other] == m[other]
        }),
{
}

/// Replies are taken up one after the other, and their records add up.
pub proof fn law_replies_are_taken_up_in_turn(
    m: Map<u32, IndexView>,
    earlier: Seq<DriveReply>,
    reply: DriveReply,
)
    ensures
        all_refreshed(m, Seq::empty()) == m,
        all_seen(m, Seq::empty()) == 0,
        all_refreshed(m, earlier.push(reply)) == refreshed(all_refreshed(m, earlier), reply),
        all_seen(m, earlier.push(reply)) == all_seen(m, earlier) + seen_by(
            all_refreshed(m, earlier),
            reply,
        ),
{
    assert(earlier.push(reply).drop_last() =~= earlier);
}

/// The entries of all drives are counted, each index once.
pub proof fn law_entries_add_up(m: Map<u32, IndexView>, code: u32, v: IndexView)
    requires
        m.dom().finite(),
        !m.contains_key(code),
    ensures
        total_entries(Map::<u32, IndexView>::empty()) == 0,
        total_entries(m.insert(code, v)) == total_entries(m) + v.entries.dom().len(),
{
    let after = m.insert(code, v);
    assert(after.dom() =~= m.dom().insert(code));
    lemma_total_remove(after, code);
    assert(after.remove(code) =~= m);
}

/// Changes are applied only where the watch stands in the journal at the place where the
/// index does. Otherwise the index is left alone, and the watch goes on from there.
pub proof fn law_changes_from_elsewhere_are_not_applied(
    watcher: Watcher,
    v: IndexView,
    next: i64,
    updates: Vec<Update>,
)
    ensures
        ({
            let event = Event::Read(JournalRead::Batch { next, updates });
            let due = due_event(watcher, v, event);
            let after = index_after(watcher, v, due);
            let moved = watcher_after(watcher, v, due);
            if watcher.journal_id == v.journal_id && watcher.next_usn == v.next_usn {
                &&& after == caught_up(v, next, update_views(updates@)) || (updates@.len() == 0
                    && next == v.next_usn && after == v)
                &&& moved.next_usn == next && moved.journal_id == v.journal_id
                &&& action_after(watcher, v, due) == (Action::Read {
                    journal_id: v.journal_id,
                    start_usn: next,
                    pause_ms: if next == v.next_usn {
                        200
                    } else {
                        0
                    },
                })
            } else {
                &&& after == v
                &&& moved.next_usn == v.next_usn && moved.journal_id == v.journal_id
                &&& action_after(watcher, v, due) == (Action::Read {
                    journal_id: v.journal_id,
                    start_usn: v.next_usn,
                    pause_ms: 0,
                })
            }
        }),
{
    assert(update_views(updates@).len() == updates@.len());
}

/// Whatever else happens to a watch leaves the index alone, unless it was rebuilt; what
/// fails is answered by opening the volume again after two seconds.
pub proof fn law_failures_are_retried(watcher: Watcher, v: IndexView, event: Event)
    requires
        event is Unavailable || event is ReadFailed || event is RebuildFailed,
    ensures
        index_after(watcher, v, due_event(watcher, v, event)) == v,
        watcher_after(watcher, v, due_event(watcher, v, event)) == watcher,
        action_after(watcher, v, due_event(watcher, v, event)) == (Action::Reopen {
            pause_ms: 2000,
        }),
{
}

/// A volume that was opened and an index that was rebuilt are read on at once, from where
/// the index stands; a stale journal is answered by rebuilding.
pub proof fn law_watch_goes_on(watcher: Watcher, v: IndexView, fresh: Index)
    ensures
        action_after(watcher, v, Event::Opened) == (Action::Read {
            journal_id: v.journal_id,
            start_usn: v.next_usn,
            pause_ms: 0,
        }),
        index_after(watcher, v, Event::Opened) == v,
        action_after(watcher, v, Event::Rebuilt(fresh)) == (Action::Read {
            journal_id: fresh.journal_id,
            start_usn: fresh.next_usn,
            pause_ms: 0,
        }),
        index_after(watcher, v, Event::Rebuilt(fresh)) == fresh@,
        action_after(watcher, v, Event::Read(JournalRead::Stale)) == Action::Rebuild,
        index_after(watcher, v, Event::Read(JournalRead::Stale)) == v,
        due_event(watcher, v, Event::Opened) == Event::Opened,
        due_event(watcher, v, Event::Rebuilt(fresh)) == Event::Rebuilt(fresh),
        due_event(watcher, v, Event::Read(JournalRead::Stale)) == Event::Read(JournalRead::Stale),
{
}

/// The drives that can be searched are those whose index could be had, in the order in
/// which they were asked for; if it fails for one, the others remain, and the last failure
/// is remembered.
pub proof fn law_drives_that_fail_are_skipped(attempts: Seq<Attempt>, attempt: Attempt)
    ensures
        usable(Seq::empty()) == Seq::<char>::empty(),
        last_failure(Seq::empty()) == "no NTFS volume found"@,
        attempt.failure is None ==> {
            &&& usable(attempts.push(attempt)) == usable(attempts).push(attempt.drive)
            &&& last_failure(attempts.push(attempt)) == last_failure(attempts)
        },
        attempt.failure matches Some(message) ==> {
            &&& usable(attempts.push(attempt)) == usable(attempts)
            &&& last_failure(attempts.push(attempt)) == message@
        },
{
    assert(attempts.push(attempt).drop_last() =~= attempts);
}

/// What is found on several drives is what is found on each, in their order, and nothing is
/// lost of it; the records looked at add up.
pub proof fn law_parts_are_put_together(parts: Seq<Part>, part: Part)
    ensures
        ({
            let more = parts.push(part);
            let rows = all_rows(more);
            let n = all_rows(parts).len();
            &&& all_rows(Seq::empty()).len() == 0
            &&& rows.len() == n + part.found.hits@.len()
            &&& rows.take(n as int) == all_rows(parts)
            &&& forall|i: int|
                0 <= i < part.found.hits@.len() ==> (#[trigger] rows[n + i]).path
                    == part.found.hits@[i].path@ && rows[n + i].is_dir == part.found.hits@[i].is_dir
            &&& all_scanned(Seq::empty()) == 0
            &&& all_scanned(more) == all_scanned(parts) + part.found.scanned
            &&& letters(more).len() == more.len()
            &&& forall|i: int| 0 <= i < more.len() ==> #[trigger] letters(more)[i] == more[i].drive
            &&& is_cut(more) <==> is_cut(parts) || part.found.truncated
            &&& !is_cut(Seq::empty())
        }),
{
    let more = parts.push(part);
    assert(more.drop_last() =~= parts);
    assert(all_rows(more).take(all_rows(parts).len() as int) =~= all_rows(parts));
    assert(more[parts.len() as int] == part);
    if is_cut(parts) {
        let i = choose|i: int| 0 <= i < parts.len() && (#[trigger] parts[i]).found.truncated;
        assert(more[i].found.truncated);
    }
    if is_cut(more) && !part.found.truncated {
        let i = choose|i: int| 0 <= i < more.len() && (#[trigger] more[i]).found.truncated;
        assert(parts[i].found.truncated);
    }
}

/// A query of several drives asks them in their order, shows no more rows than it may, and
/// is cut off only where it shows as many as it may; if it is not cut off, it has asked
/// every drive.
pub proof fn law_drives_are_asked_in_turn(
    rule: Rule,
    m: Map<u32, IndexView>,
    scans: spec_fn(u32) -> Seq<u64>,
    drives: Seq<char>,
    max: usize,
    parts: Seq<Part>,
)
    requires
        is_fan_out(rule, m, scans, drives, max, parts),
    ensures
        parts.len() <= drives.len(),
        forall|i: int| 0 <= i < parts.len() ==> (#[trigger] parts[i]).drive == drives[i],
        all_rows(parts).len() <= max,
        is_cut(parts) && max >= 1 ==> all_rows(parts).len() == max,
        !is_cut(parts) ==> parts.len() == drives.len(),
        !is_cut(parts) && max >= 1 ==> all_rows(parts).len() < max,
{
    if parts.len() > 0 {
        let n = parts.len() - 1;
        let part = parts[n];
        let before = parts.take(n);
        assert(parts.drop_last() =~= before);
        assert(parts.last() == part);
        let left = (max - all_rows(before).len()) as usize;
        law_counts_fit(rule, m[key(part.drive)], scans(key(part.drive)), left, part.found);
        assert(hit_views(part.found.hits@).len() == part.found.hits@.len());
        assert forall|i: int| 0 <= i < n implies !(#[trigger] parts[i]).found.truncated by {}
        lemma_room_is_left(rule, m, scans, drives, max, parts, n);
        if is_cut(parts) {
            let i = choose|i: int| 0 <= i < parts.len() && (#[trigger] parts[i]).found.truncated;
            assert(i == n);
        } else {
            assert(!parts[n].found.truncated);
        }
    }
}

/// As long as no drive was cut off, more rows may be shown.
proof fn lemma_room_is_left(
    rule: Rule,
    m: Map<u32, IndexView>,
    scans: spec_fn(u32) -> Seq<u64>,
    drives: Seq<char>,
    max: usize,
    parts: Seq<Part>,
    k: int,
)
    requires
        is_fan_out(rule, m, scans, drives, max, parts),
        0 <= k < parts.len(),
    ensures
        max >= 1 ==> all_rows(parts.take(k)).len() < max,
    decreases k,
{
    if k > 0 {
        lemma_room_is_left(rule, m, scans, drives, max, parts, k - 1);
        let part = parts[k - 1];
        let before = parts.take(k - 1);
        assert(parts.take(k).drop_last() =~= before);
        assert(parts.take(k).last() == part);
        let left = (max - all_rows(before).len()) as usize;
        law_counts_fit(rule, m[key(part.drive)], scans(key(part.drive)), left, part.found);
        assert(hit_views(part.found.hits@).len() == part.found.hits@.len());
        assert(!part.found.truncated);
    } else {
        assert(parts.take(0) =~= Seq::empty());
    }
}

/// The name of a file system ends at the first zero unit.
pub proof fn law_name_ends_at_a_zero(name: Seq<u16>, rest: Seq<u16>)
    requires
        !name.contains(0),
    ensures
        before_zero(name + seq![0u16] + rest) == name,
        before_zero(name) == name,
    decreases name.len(),
{
    let all = name + seq![0u16] + rest;
    if name.len() == 0 {
        assert(all[0] == 0);
        assert(before_zero(all) =~= name);
        assert(before_zero(name) =~= name);
    } else {
        assert(name.contains(name[0]));
        assert(all[0] == name[0]);
        assert(all.skip(1) =~= name.skip(1) + seq![0u16] + rest);
        assert forall|i: int| 0 <= i < name.skip(1).len() implies name.skip(1)[i] != 0 by {
            assert(name.contains(name[i + 1]));
        }
        law_name_ends_at_a_zero(name.skip(1), rest);
        assert(seq![name[0]] + name.skip(1) =~= name);
    }
}

/// A unit that stands for a letter is decoded as that letter.
proof fn lemma_letter_first(units: Seq<u16>)
    requires
        units.len() > 0,
        units[0] < 0x80,
    ensures
        utf16_lossy(units) == seq![units[0] as char] + utf16_lossy(units.skip(1)),
{
}

/// The four letters `NTFS`, in any case.
pub open spec fn spells_ntfs(name: Seq<u16>) -> bool {
    &&& name.len() == 4
    &&& name[0] == 0x4E || name[0] == 0x6E
    &&& name[1] == 0x54 || name[1] == 0x74
    &&& name[2] == 0x46 || name[2] == 0x66
    &&& name[3] == 0x53 || name[3] == 0x73
}

/// A drive can be indexed if it is fixed or removable and its file system is called NTFS;
/// one of another type, or that could not be asked, cannot.
pub proof fn law_ntfs_can_be_indexed(info: VolumeInfo, name: Seq<u16>, rest: Seq<u16>)
    ensures
        info.fs_name is None ==> !indexable(info),
        info.drive_type != 2 && info.drive_type != 3 ==> !indexable(info),
        (info.drive_type == 2 || info.drive_type == 3) && spells_ntfs(name) && (
        info.fs_name matches Some(units) && (units@ == name || units@ == name + seq![0u16] + rest))
            ==> indexable(info),
{
    if spells_ntfs(name) {
        reveal_strlit("NTFS");
        law_name_ends_at_a_zero(name, rest);
        let one = name.skip(1);
        let two = one.skip(1);
        let three = two.skip(1);
        let four = three.skip(1);
        lemma_letter_first(name);
        lemma_letter_first(one);
        lemma_letter_first(two);
        lemma_letter_first(three);
        assert(four =~= Seq::empty());
        let text = utf16_lossy(name);
        assert(text =~= seq![
            name[0] as char,
            name[1] as char,
            name[2] as char,
            name[3] as char,
        ]);
        assert(lowered(text) =~= lowered("NTFS"@));
    }
}

/// A name that is decoded as four letters has a unit for each.
proof fn lemma_first_unit(units: Seq<u16>, text: Seq<char>)
    requires
        utf16_lossy(units) == text,
        text.len() > 0,
        (text[0] as int) < 0x80,
    ensures
        units.len() > 0,
        units[0] == text[0] as int,
        utf16_lossy(units.skip(1)) == text.skip(1),
{
    let all = utf16_lossy(units);
    assert(units.len() > 0);
    if units.len() >= 2 && 0xD800 <= units[0] < 0xDC00 && 0xDC00 <= units[1] < 0xE000 {
        assert(all[0] as int >= 0x1_0000);
    } else {
        assert(all.skip(1) =~= utf16_lossy(units.skip(1)));
    }
}

/// The name of the file system of a drive that can be indexed is NTFS: nothing else is
/// taken for it.
pub proof fn law_only_ntfs_can_be_indexed(info: VolumeInfo)
    requires
        indexable(info),
    ensures
        info.drive_type == 2 || info.drive_type == 3,
        info.fs_name matches Some(units) && spells_ntfs(before_zero(units@)),
{
    reveal_strlit("NTFS");
    let units = before_zero(info.fs_name->0@);
    let text = utf16_lossy(units);
    assert(lowered(text).len() == text.len());
    let ntfs = "NTFS"@;
    assert(lowered(ntfs).len() == 4);
    lemma_lower_is(text[0], ntfs[0], lowered(text)[0] == lowered(ntfs)[0]);
    lemma_lower_is(text[1], ntfs[1], lowered(text)[1] == lowered(ntfs)[1]);
    lemma_lower_is(text[2], ntfs[2], lowered(text)[2] == lowered(ntfs)[2]);
    lemma_lower_is(text[3], ntfs[3], lowered(text)[3] == lowered(ntfs)[3]);
    lemma_first_unit(units, text);
    lemma_first_unit(units.skip(1), text.skip(1));
    lemma_first_unit(units.skip(1).skip(1), text.skip(1).skip(1));
    lemma_first_unit(units.skip(1).skip(1).skip(1), text.skip(1).skip(1).skip(1));
    let rest = units.skip(1).skip(1).skip(1).skip(1);
    if rest.len() > 0 {
        assert(utf16_lossy(rest).len() > 0);
    }
    assert(units[1] == units.skip(1)[0]);
    assert(units[2] == units.skip(1).skip(1)[0]);
    assert(units[3] == units.skip(1).skip(1).skip(1)[0]);
}

/// A letter that is another in either case is one of the two.
proof fn lemma_lower_is(c: char, letter: char, alike: bool)
    requires
        alike <==> lower(c) == lower(letter),
        alike,
        'A' <= letter <= 'Z',
    ensures
        c as int == letter as int || c as int == letter as int + 32,
{
}

/// Of the drives that there are, all that can be indexed are listed, and no others. The
/// lowest bit of the mask is that of drive A.
pub proof fn law_every_ntfs_drive_is_listed(mask: u32, infos: Seq<VolumeInfo>, n: int, c: char)
    requires
        0 <= n <= 26,
    ensures
        indexable_letters(mask, infos, n).contains(c) <==> 'A' <= c && (c as int) < 'A' as int + n
            && indexable(infos[c as int - 'A' as int]) && (mask >> ((c as u32 - 'A' as u32) as u32))
            & 1 == 1,
    decreases n,
{
    if n > 0 {
        let before = indexable_letters(mask, infos, n - 1);
        let all = indexable_letters(mask, infos, n);
        law_every_ntfs_drive_is_listed(mask, infos, n - 1, c);
        let i = (n - 1) as u32;
        assert(mask & (1u32 << i) != 0 <==> (mask >> i) & 1 == 1) by (bit_vector)
            requires
                i < 32,
        ;
        let letter = ('A' as u32 + (n - 1)) as char;
        assert(letter as int == 'A' as int + n - 1);
        if all != before {
            assert(all == before.push(letter));
            lemma_push_has(before, letter, c);
        }
    }
}

/// A query looks everywhere only if it has no root at all; one with a root looks on the
/// drive whose letter, in upper case, it starts with, or on drive C if it names none.
pub proof fn law_root_chooses_the_drive(c: char, rest: Seq<char>, root: Seq<char>)
    ensures
        scope_in(Seq::empty()) == Scope::Machine,
        root.len() > 0 ==> scope_in(root) is Drive,
        'A' <= c <= 'Z' ==> scope_in(seq![c, ':'] + rest) == Scope::Drive(c),
        'a' <= c <= 'z' ==> (scope_in(seq![c, ':'] + rest) matches Scope::Drive(d) && d as int
            == c as int - 32),
        root.len() == 1 || (root.len() > 1 && root[1] != ':') ==> scope_in(root) == Scope::Drive(
            'C',
        ),
{
    law_drive_of_a_path(root, c, rest);
}

/// A query of the whole machine asks for the pattern alone: no root, and no ignore rules.
pub proof fn law_whole_machine_is_not_scoped(pattern: Seq<char>)
    ensures
        unscoped(pattern).prefix.len() == 0,
        unscoped(pattern).ignore is None,
        !unscoped(pattern).spare_git,
        unscoped(pattern).pattern.len() == pattern.len(),
        forall|i: int|
            0 <= i < pattern.len() && pattern[i] != '\\' ==> #[trigger] unscoped(pattern).pattern[i]
                == pattern[i],
{
}

} // verus!
