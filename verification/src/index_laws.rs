//! What holds of an index, whatever was done to it: the inverted index and the
//! entries tell the same, and paths follow the directory tree.

use vstd::prelude::*;

use crate::buckets::{
    bucket, each_once, filed, lemma_both_unique, lemma_filed_bucket, lemma_filed_has,
    lemma_filed_once, lemma_one_gone, lemma_push_has, lemma_push_unique, lemma_withdrawn_bucket,
    lemma_withdrawn_has, lemma_without, withdrawn, without,
};
use crate::enumerate::{all_indexed, entry_of};
use crate::journal::{all_updated, caught_up, UpdateView};
use crate::mft::{
    added, dotfile, drive_root, extension, key_of, lineage, path_of, pinned_order, removed, unfiled,
    EntryView, IndexView, MAX_DEPTH, ROOT_FRN,
};
use crate::text::{
    joined, last_of, lemma_last_of, lemma_same_dots, lemma_same_letters, lowered,
};
use crate::usn::RecordView;

verus! {

/// Every bucket holds, each once, the entries whose name has its key, and no others.
pub open spec fn files_exactly(
    m: Map<Seq<char>, Seq<u64>>,
    entries: Map<u64, EntryView>,
    own_key: spec_fn(Seq<char>) -> Option<Seq<char>>,
) -> bool {
    &&& forall|key: Seq<char>| (#[trigger] bucket(m, key)).no_duplicates()
    &&& forall|key: Seq<char>, frn: u64| #[trigger]
        bucket(m, key).contains(frn) <==> entries.contains_key(frn) && own_key(entries[frn].name)
            == Some(key)
}

/// The inverted index is that of the entries.
pub open spec fn consistent(v: IndexView) -> bool {
    &&& files_exactly(v.by_ext, v.entries, |name: Seq<char>| extension(name))
    &&& files_exactly(v.by_dotfile, v.entries, |name: Seq<char>| dotfile(name))
}

/// `name` leads to every place of `frn` in the inverted index: it is the entry's own,
/// or has the same key.
pub open spec fn is_known_as(v: IndexView, frn: u64, name: Seq<char>) -> bool {
    v.entries.contains_key(frn) ==> {
        let own = v.entries[frn].name;
        &&& extension(own) is Some ==> extension(name) == extension(own)
        &&& dotfile(own) is Some ==> dotfile(name) == dotfile(own)
    }
}

/// Buckets after the place of a number was given up, under a key that leads to it.
proof fn lemma_withdrawn(
    m: Map<Seq<char>, Seq<u64>>,
    entries: Map<u64, EntryView>,
    own_key: spec_fn(Seq<char>) -> Option<Seq<char>>,
    frn: u64,
    key: Option<Seq<char>>,
)
    requires
        files_exactly(m, entries, own_key),
        entries.contains_key(frn) && own_key(entries[frn].name) is Some ==> key == own_key(
            entries[frn].name,
        ),
    ensures
        files_exactly(withdrawn(m, key, frn), entries.remove(frn), own_key),
        forall|k: Seq<char>|
            bucket(withdrawn(m, key, frn), k) == without(#[trigger] bucket(m, k), frn),
{
    let after = withdrawn(m, key, frn);
    assert forall|k: Seq<char>| bucket(after, k) == without(#[trigger] bucket(m, k), frn) by {
        lemma_without(bucket(m, k), frn);
        assert(bucket(m, k).contains(frn) <==> entries.contains_key(frn) && own_key(
            entries[frn].name,
        ) == Some(k));
        if !m.contains_key(k) {
            assert(bucket(m, k) =~= Seq::empty());
        }
    }
    assert forall|k: Seq<char>| true implies (#[trigger] bucket(after, k)).no_duplicates() by {
        lemma_without(bucket(m, k), frn);
    }
    assert forall|k: Seq<char>, x: u64| #[trigger]
        bucket(after, k).contains(x) <==> entries.remove(frn).contains_key(x) && own_key(
            entries.remove(frn)[x].name,
        ) == Some(k) by {
        lemma_without(bucket(m, k), frn);
        assert(bucket(m, k).contains(x) <==> entries.contains_key(x) && own_key(entries[x].name)
            == Some(k));
    }
}

/// Buckets after a number that they did not hold was filed.
proof fn lemma_filed(
    m: Map<Seq<char>, Seq<u64>>,
    entries: Map<u64, EntryView>,
    own_key: spec_fn(Seq<char>) -> Option<Seq<char>>,
    frn: u64,
    entry: EntryView,
)
    requires
        files_exactly(m, entries.remove(frn), own_key),
    ensures
        files_exactly(filed(m, own_key(entry.name), frn), entries.insert(frn, entry), own_key),
{
    let after = filed(m, own_key(entry.name), frn);
    assert forall|k: Seq<char>| true implies (#[trigger] bucket(after, k)).no_duplicates() by {
        assert(!bucket(m, k).contains(frn));
        if own_key(entry.name) == Some(k) {
            assert(bucket(after, k) =~= bucket(m, k).push(frn));
            lemma_push_unique(bucket(m, k), frn);
        } else {
            assert(bucket(after, k) == bucket(m, k));
        }
    }
    assert forall|k: Seq<char>, x: u64| #[trigger]
        bucket(after, k).contains(x) <==> entries.insert(frn, entry).contains_key(x) && own_key(
            entries.insert(frn, entry)[x].name,
        ) == Some(k) by {
        assert(bucket(m, k).contains(x) <==> entries.remove(frn).contains_key(x) && own_key(
            entries.remove(frn)[x].name,
        ) == Some(k));
        if own_key(entry.name) == Some(k) {
            assert(bucket(after, k) =~= bucket(m, k).push(frn));
            lemma_push_has(bucket(m, k), frn, x);
        } else {
            assert(bucket(after, k) == bucket(m, k));
        }
    }
}

/// Buckets after a number was withdrawn, if it is known, and filed anew. Nothing is left
/// of it to withdraw under another key.
proof fn lemma_refiled(
    m: Map<Seq<char>, Seq<u64>>,
    entries: Map<u64, EntryView>,
    own_key: spec_fn(Seq<char>) -> Option<Seq<char>>,
    frn: u64,
    entry: EntryView,
    key: Option<Seq<char>>,
)
    requires
        files_exactly(m, entries, own_key),
    ensures
        entries.contains_key(frn) ==> files_exactly(
            filed(
                withdrawn(withdrawn(m, own_key(entries[frn].name), frn), key, frn),
                own_key(entry.name),
                frn,
            ),
            entries.insert(frn, entry),
            own_key,
        ),
        !entries.contains_key(frn) ==> files_exactly(
            filed(withdrawn(m, key, frn), own_key(entry.name), frn),
            entries.insert(frn, entry),
            own_key,
        ),
{
    let cleared = if entries.contains_key(frn) {
        withdrawn(m, own_key(entries[frn].name), frn)
    } else {
        m
    };
    if entries.contains_key(frn) {
        lemma_withdrawn(m, entries, own_key, frn, own_key(entries[frn].name));
    } else {
        assert(entries.remove(frn) =~= entries);
    }
    assert(files_exactly(cleared, entries.remove(frn), own_key));
    assert(withdrawn(cleared, key, frn) =~= cleared) by {
        if let Some(k) = key {
            assert(!bucket(cleared, k).contains(frn));
            lemma_without(bucket(cleared, k), frn);
        }
    }
    lemma_filed(cleared, entries, own_key, frn, entry);
}

/// An index without entries and buckets is consistent.
pub proof fn law_empty_is_consistent(v: IndexView)
    requires
        v.entries == Map::<u64, EntryView>::empty(),
        v.by_ext == Map::<Seq<char>, Seq<u64>>::empty(),
        v.by_dotfile == Map::<Seq<char>, Seq<u64>>::empty(),
    ensures
        consistent(v),
{
}

/// Adding an entry, be it new, re-created or renamed, keeps the index consistent: no
/// bucket comes to hold a number twice, and none keeps a stale one.
pub proof fn law_adding_keeps_consistency(v: IndexView, frn: u64, entry: EntryView)
    requires
        consistent(v),
    ensures
        consistent(added(v, frn, entry)),
{
    lemma_refiled(
        v.by_ext,
        v.entries,
        |name: Seq<char>| extension(name),
        frn,
        entry,
        key_of(entry.name),
    );
    lemma_refiled(
        v.by_dotfile,
        v.entries,
        |name: Seq<char>| dotfile(name),
        frn,
        entry,
        key_of(entry.name),
    );
}

/// Removing an entry under a name that leads to it keeps the index consistent.
pub proof fn law_removing_keeps_consistency(v: IndexView, frn: u64, name: Seq<char>)
    requires
        consistent(v),
        is_known_as(v, frn, name),
    ensures
        consistent(removed(v, frn, name)),
{
    lemma_withdrawn(v.by_ext, v.entries, |n: Seq<char>| extension(n), frn, extension(name));
    lemma_withdrawn(v.by_dotfile, v.entries, |n: Seq<char>| dotfile(n), frn, dotfile(name));
}

/// Adding the same entry once more changes nothing, whatever the index holds.
pub proof fn law_adding_is_idempotent(v: IndexView, frn: u64, entry: EntryView)
    ensures
        added(added(v, frn, entry), frn, entry) == added(v, frn, entry),
{
    let cleared = if v.entries.contains_key(frn) {
        unfiled(v, frn, v.entries[frn].name)
    } else {
        v
    };
    let once = added(v, frn, entry);
    let twice = added(once, frn, entry);
    let key = key_of(entry.name);
    assert(twice.entries =~= once.entries);
    lemma_filed_twice(cleared.by_ext, key, extension(entry.name), frn);
    lemma_filed_twice(cleared.by_dotfile, key, dotfile(entry.name), frn);
}

/// Filing a number anew once more changes nothing.
proof fn lemma_filed_twice(
    m: Map<Seq<char>, Seq<u64>>,
    key: Option<Seq<char>>,
    own: Option<Seq<char>>,
    frn: u64,
)
    requires
        own is Some ==> own == key,
    ensures
        ({
            let once = filed(withdrawn(m, key, frn), own, frn);
            filed(withdrawn(withdrawn(once, own, frn), key, frn), own, frn) == once
        }),
{
    let once = filed(withdrawn(m, key, frn), own, frn);
    let twice = filed(withdrawn(withdrawn(once, own, frn), key, frn), own, frn);
    if let Some(k) = key {
        let kept = without(bucket(m, k), frn);
        lemma_without(bucket(m, k), frn);
        lemma_without(kept, frn);
        lemma_withdrawn_bucket(m, key, frn, k);
        if own == key {
            lemma_filed_bucket(withdrawn(m, key, frn), own, frn, k);
            assert(once[k] == kept.push(frn));
            lemma_pushed_and_gone(kept, frn);
            assert(withdrawn(once, own, frn)[k] == kept);
        }
    }
    assert(twice =~= once);
}

/// A number that came last and is taken out again leaves the list as it was.
proof fn lemma_pushed_and_gone(list: Seq<u64>, frn: u64)
    requires
        !list.contains(frn),
    ensures
        without(list.push(frn), frn) == list,
{
    reveal(Seq::filter);
    assert(list.push(frn).drop_last() =~= list);
    lemma_without(list, frn);
}

/// A rename moves the number: afterwards it is filed, once, under the new extension,
/// and under no other.
pub proof fn law_renaming_moves(v: IndexView, frn: u64, entry: EntryView)
    requires
        consistent(v),
    ensures
        ({
            let after = added(v, frn, entry);
            &&& after.entries[frn] == entry
            &&& forall|key: Seq<char>| #[trigger]
                bucket(after.by_ext, key).contains(frn) <==> extension(entry.name) == Some(key)
            &&& forall|key: Seq<char>| (#[trigger] bucket(after.by_ext, key)).no_duplicates()
        }),
{
    law_adding_keeps_consistency(v, frn, entry);
}

/// A removed entry is gone, from the entries and from every bucket.
pub proof fn law_removed_is_gone(v: IndexView, frn: u64, name: Seq<char>)
    requires
        consistent(v),
        is_known_as(v, frn, name),
    ensures
        ({
            let after = removed(v, frn, name);
            &&& !after.entries.contains_key(frn)
            &&& forall|key: Seq<char>| !(#[trigger] bucket(after.by_ext, key)).contains(frn)
            &&& forall|key: Seq<char>| !(#[trigger] bucket(after.by_dotfile, key)).contains(frn)
        }),
{
    law_removing_keeps_consistency(v, frn, name);
}

/// Removing what was just added gives back the entries and the buckets that were
/// there before.
pub proof fn law_removing_undoes_adding(v: IndexView, frn: u64, entry: EntryView)
    requires
        consistent(v),
        !v.entries.contains_key(frn),
    ensures
        ({
            let after = removed(added(v, frn, entry), frn, entry.name);
            &&& after.entries == v.entries
            &&& forall|key: Seq<char>| #[trigger]
                bucket(after.by_ext, key) == bucket(v.by_ext, key)
            &&& forall|key: Seq<char>| #[trigger]
                bucket(after.by_dotfile, key) == bucket(v.by_dotfile, key)
        }),
{
    let after = removed(added(v, frn, entry), frn, entry.name);
    assert(after.entries =~= v.entries);
    let own = key_of(entry.name);
    assert forall|key: Seq<char>| #[trigger] bucket(after.by_ext, key) == bucket(v.by_ext, key) by {
        assert(!bucket(v.by_ext, key).contains(frn));
        lemma_withdrawn_bucket(v.by_ext, own, frn, key);
        lemma_without(bucket(v.by_ext, key), frn);
        lemma_filed_and_withdrawn(
            withdrawn(v.by_ext, own, frn),
            extension(entry.name),
            frn,
            key,
        );
    }
    assert forall|key: Seq<char>| #[trigger]
        bucket(after.by_dotfile, key) == bucket(v.by_dotfile, key) by {
        assert(!bucket(v.by_dotfile, key).contains(frn));
        lemma_withdrawn_bucket(v.by_dotfile, own, frn, key);
        lemma_without(bucket(v.by_dotfile, key), frn);
        lemma_filed_and_withdrawn(
            withdrawn(v.by_dotfile, own, frn),
            dotfile(entry.name),
            frn,
            key,
        );
    }
}

/// A bucket after a number that it did not hold came and went.
proof fn lemma_filed_and_withdrawn(
    m: Map<Seq<char>, Seq<u64>>,
    own: Option<Seq<char>>,
    frn: u64,
    key: Seq<char>,
)
    requires
        !bucket(m, key).contains(frn),
    ensures
        bucket(withdrawn(filed(m, own, frn), own, frn), key) == bucket(m, key),
{
    lemma_filed_bucket(m, own, frn, key);
    lemma_withdrawn_bucket(filed(m, own, frn), own, frn, key);
    lemma_pushed_and_gone(bucket(m, key), frn);
}

/// The record stands in the bucket that its name asks for.
pub open spec fn is_filed(v: IndexView, frn: u64) -> bool {
    let name = v.entries[frn].name;
    &&& extension(name) matches Some(key) ==> bucket(v.by_ext, key).contains(frn)
    &&& dotfile(name) matches Some(key) ==> bucket(v.by_dotfile, key).contains(frn)
}

/// Under each key no number stands twice, and every record is filed. There may be
/// places left of records that were removed under another name.
pub open spec fn well_filed(v: IndexView) -> bool {
    &&& forall|key: Seq<char>|
        each_once(#[trigger] bucket(v.by_ext, key), bucket(v.by_dotfile, key))
    &&& forall|frn: u64| #[trigger] v.entries.contains_key(frn) ==> is_filed(v, frn)
}

/// Giving up places of a number leaves no number twice, and all others filed.
proof fn lemma_unfiled(v: IndexView, frn: u64, name: Seq<char>)
    requires
        well_filed(v),
    ensures
        ({
            let after = unfiled(v, frn, name);
            &&& forall|key: Seq<char>|
                each_once(#[trigger] bucket(after.by_ext, key), bucket(after.by_dotfile, key))
            &&& forall|x: u64| #[trigger]
                v.entries.contains_key(x) && x != frn ==> is_filed(after, x)
        }),
{
    let after = unfiled(v, frn, name);
    if let Some(key) = extension(name) {
        lemma_one_gone(v.by_ext, v.by_dotfile, key, frn);
    }
    if let Some(key) = dotfile(name) {
        lemma_one_gone(after.by_ext, v.by_dotfile, key, frn);
    }
    assert forall|x: u64| #[trigger] v.entries.contains_key(x) && x != frn implies is_filed(
        after,
        x,
    ) by {
        assert(is_filed(v, x));
        if let Some(key) = extension(v.entries[x].name) {
            lemma_withdrawn_has(v.by_ext, extension(name), frn, key, x);
        }
        if let Some(key) = dotfile(v.entries[x].name) {
            lemma_withdrawn_has(v.by_dotfile, dotfile(name), frn, key, x);
        }
    }
}

/// Adding an entry keeps an index well filed.
pub proof fn law_adding_keeps_filing(v: IndexView, frn: u64, entry: EntryView)
    requires
        well_filed(v),
    ensures
        well_filed(added(v, frn, entry)),
{
    let cleared = if v.entries.contains_key(frn) {
        unfiled(v, frn, v.entries[frn].name)
    } else {
        v
    };
    if v.entries.contains_key(frn) {
        lemma_unfiled(v, frn, v.entries[frn].name);
    }
    let after = added(v, frn, entry);
    let key = key_of(entry.name);
    assert forall|k: Seq<char>|
        each_once(#[trigger] bucket(after.by_ext, k), bucket(after.by_dotfile, k)) by {
        assert(each_once(bucket(cleared.by_ext, k), bucket(cleared.by_dotfile, k)));
        if let Some(own) = key {
            lemma_filed_once(cleared.by_ext, cleared.by_dotfile, own, frn);
        }
    }
    assert forall|x: u64| #[trigger] after.entries.contains_key(x) implies is_filed(after, x) by {
        let name = after.entries[x].name;
        if x != frn {
            assert(v.entries.contains_key(x));
            assert(is_filed(cleared, x));
        }
        if let Some(k) = extension(name) {
            lemma_withdrawn_has(cleared.by_ext, key, frn, k, x);
            lemma_filed_has(withdrawn(cleared.by_ext, key, frn), extension(entry.name), frn, k, x);
        }
        if let Some(k) = dotfile(name) {
            lemma_withdrawn_has(cleared.by_dotfile, key, frn, k, x);
            lemma_filed_has(
                withdrawn(cleared.by_dotfile, key, frn),
                dotfile(entry.name),
                frn,
                k,
                x,
            );
        }
    }
}

/// Removing an entry, under whatever name, keeps an index well filed.
pub proof fn law_removing_keeps_filing(v: IndexView, frn: u64, name: Seq<char>)
    requires
        well_filed(v),
    ensures
        well_filed(removed(v, frn, name)),
{
    lemma_unfiled(v, frn, name);
    let after = removed(v, frn, name);
    assert forall|x: u64| #[trigger] after.entries.contains_key(x) implies is_filed(after, x) by {
        assert(v.entries.contains_key(x) && x != frn);
        assert(is_filed(unfiled(v, frn, name), x));
    }
}

/// Every index that comes of an empty one, by any entries added and removed under any
/// names, is well filed.
pub proof fn law_every_index_is_well_filed(v: IndexView, updates: Seq<UpdateView>)
    requires
        v.entries == Map::<u64, EntryView>::empty(),
        v.by_ext == Map::<Seq<char>, Seq<u64>>::empty(),
        v.by_dotfile == Map::<Seq<char>, Seq<u64>>::empty(),
    ensures
        well_filed(all_updated(v, updates)),
{
    law_changes_keep_filing(v, updates);
}

/// Changes keep an index well filed.
pub proof fn law_changes_keep_filing(v: IndexView, updates: Seq<UpdateView>)
    requires
        well_filed(v),
    ensures
        well_filed(all_updated(v, updates)),
    decreases updates.len(),
{
    if updates.len() > 0 {
        let last = updates.last();
        let before = all_updated(v, updates.drop_last());
        law_changes_keep_filing(v, updates.drop_last());
        if last.is_delete {
            law_removing_keeps_filing(before, last.frn, last.name);
        } else {
            law_adding_keeps_filing(
                before,
                last.frn,
                EntryView { parent: last.parent, name: last.name, is_dir: last.is_dir },
            );
        }
    }
}

/// An enumeration keeps an index well filed.
pub proof fn law_enumerating_keeps_filing(v: IndexView, list: Seq<RecordView>)
    requires
        well_filed(v),
    ensures
        well_filed(all_indexed(v, list)),
    decreases list.len(),
{
    if list.len() > 0 {
        law_enumerating_keeps_filing(v, list.drop_last());
        law_adding_keeps_filing(
            all_indexed(v, list.drop_last()),
            list.last().frn,
            entry_of(list.last()),
        );
    }
}

/// In a well filed index, the list of a key names no record twice.
pub proof fn law_no_number_twice(v: IndexView, key: Seq<char>)
    requires
        well_filed(v),
    ensures
        pinned_order(v, key).no_duplicates(),
{
    assert(each_once(bucket(v.by_ext, key), bucket(v.by_dotfile, key)));
    lemma_both_unique(bucket(v.by_ext, key), bucket(v.by_dotfile, key));
}

/// Whatever an enumeration indexes, the index is consistent afterwards if it was
/// before.
pub proof fn law_enumerating_keeps_consistency(v: IndexView, list: Seq<RecordView>)
    requires
        consistent(v),
    ensures
        consistent(all_indexed(v, list)),
    decreases list.len(),
{
    if list.len() > 0 {
        law_enumerating_keeps_consistency(v, list.drop_last());
        law_adding_keeps_consistency(
            all_indexed(v, list.drop_last()),
            list.last().frn,
            entry_of(list.last()),
        );
    }
}

/// Every delete among the changes carries a name that, when its turn comes, leads to
/// the entry.
pub open spec fn deletes_known(v: IndexView, updates: Seq<UpdateView>) -> bool {
    forall|i: int|
        0 <= i < updates.len() && (#[trigger] updates[i]).is_delete ==> is_known_as(
            all_updated(v, updates.take(i)),
            updates[i].frn,
            updates[i].name,
        )
}

/// A batch of changes keeps the index consistent, if its deletes carry the names under
/// which the entries are known.
pub proof fn law_changes_keep_consistency(v: IndexView, next: i64, updates: Seq<UpdateView>)
    requires
        consistent(v),
        deletes_known(v, updates),
    ensures
        consistent(caught_up(v, next, updates)),
{
    lemma_changes_keep_consistency(v, updates);
}

/// The same, one change after the other.
proof fn lemma_changes_keep_consistency(v: IndexView, updates: Seq<UpdateView>)
    requires
        consistent(v),
        deletes_known(v, updates),
    ensures
        consistent(all_updated(v, updates)),
    decreases updates.len(),
{
    if updates.len() > 0 {
        let before = updates.drop_last();
        let last = updates.last();
        assert forall|i: int|
            0 <= i < before.len() && (#[trigger] before[i]).is_delete implies is_known_as(
            all_updated(v, before.take(i)),
            before[i].frn,
            before[i].name,
        ) by {
            assert(before[i] == updates[i]);
            assert(before.take(i) =~= updates.take(i));
        }
        lemma_changes_keep_consistency(v, before);
        let middle = all_updated(v, before);
        if last.is_delete {
            assert(updates.take(updates.len() - 1) =~= before);
            assert(updates[updates.len() - 1].is_delete);
            law_removing_keeps_consistency(middle, last.frn, last.name);
        } else {
            law_adding_keeps_consistency(
                middle,
                last.frn,
                EntryView { parent: last.parent, name: last.name, is_dir: last.is_dir },
            );
        }
    }
}

/// The entry, if there is one, that a change leaves behind.
pub open spec fn left_by(update: UpdateView) -> Option<EntryView> {
    if update.is_delete {
        None
    } else {
        Some(EntryView { parent: update.parent, name: update.name, is_dir: update.is_dir })
    }
}

/// The entry of a number, if there is one.
pub open spec fn entry_at(v: IndexView, frn: u64) -> Option<EntryView> {
    if v.entries.contains_key(frn) {
        Some(v.entries[frn])
    } else {
        None
    }
}

/// After a batch, an entry is what the last change to it left behind: a file that was
/// created or renamed is there as it was last named, and one that was deleted is gone.
pub proof fn law_last_change_counts(v: IndexView, next: i64, updates: Seq<UpdateView>, k: int)
    requires
        0 <= k < updates.len(),
        forall|i: int| k < i < updates.len() ==> (#[trigger] updates[i]).frn != updates[k].frn,
    ensures
        entry_at(caught_up(v, next, updates), updates[k].frn) == left_by(updates[k]),
{
    lemma_last_change_counts(v, updates, k);
}

/// The same, without the cursor.
proof fn lemma_last_change_counts(v: IndexView, updates: Seq<UpdateView>, k: int)
    requires
        0 <= k < updates.len(),
        forall|i: int| k < i < updates.len() ==> (#[trigger] updates[i]).frn != updates[k].frn,
    ensures
        entry_at(all_updated(v, updates), updates[k].frn) == left_by(updates[k]),
    decreases updates.len(),
{
    if k < updates.len() - 1 {
        let before = updates.drop_last();
        assert forall|i: int| k < i < before.len() implies (#[trigger] before[i]).frn
            != before[k].frn by {
            assert(before[i] == updates[i]);
        }
        lemma_last_change_counts(v, before, k);
        assert(updates[updates.len() - 1].frn != updates[k].frn);
    }
}

/// Entries that no change of a batch is about stay as they are.
pub proof fn law_other_entries_stay(v: IndexView, next: i64, updates: Seq<UpdateView>, frn: u64)
    requires
        forall|i: int| 0 <= i < updates.len() ==> (#[trigger] updates[i]).frn != frn,
    ensures
        entry_at(caught_up(v, next, updates), frn) == entry_at(v, frn),
{
    lemma_other_entries_stay(v, updates, frn);
}

/// The same, without the cursor.
proof fn lemma_other_entries_stay(v: IndexView, updates: Seq<UpdateView>, frn: u64)
    requires
        forall|i: int| 0 <= i < updates.len() ==> (#[trigger] updates[i]).frn != frn,
    ensures
        entry_at(all_updated(v, updates), frn) == entry_at(v, frn),
    decreases updates.len(),
{
    if updates.len() > 0 {
        let before = updates.drop_last();
        assert forall|i: int| 0 <= i < before.len() implies (#[trigger] before[i]).frn != frn by {
            assert(before[i] == updates[i]);
        }
        lemma_other_entries_stay(v, before, frn);
        assert(updates[updates.len() - 1].frn != frn);
    }
}

/// Two batches, one after the other, come to what a single batch of all their changes
/// does.
pub proof fn law_batches_add_up(
    v: IndexView,
    first: i64,
    earlier: Seq<UpdateView>,
    next: i64,
    later: Seq<UpdateView>,
)
    ensures
        caught_up(caught_up(v, first, earlier), next, later) == caught_up(
            v,
            next,
            earlier + later,
        ),
{
    lemma_cursor_does_not_matter(all_updated(v, earlier), first, later);
    lemma_changes_add_up(v, earlier, later);
}

/// Where the cursor stands does not matter to the changes.
proof fn lemma_cursor_does_not_matter(v: IndexView, cursor: i64, updates: Seq<UpdateView>)
    ensures
        all_updated(IndexView { next_usn: cursor, ..v }, updates) == (IndexView {
            next_usn: cursor,
            ..all_updated(v, updates)
        }),
    decreases updates.len(),
{
    if updates.len() > 0 {
        lemma_cursor_does_not_matter(v, cursor, updates.drop_last());
    }
}

/// The changes of two lists, one after the other.
proof fn lemma_changes_add_up(v: IndexView, earlier: Seq<UpdateView>, later: Seq<UpdateView>)
    ensures
        all_updated(v, earlier + later) == all_updated(all_updated(v, earlier), later),
    decreases later.len(),
{
    if later.len() > 0 {
        assert((earlier + later).drop_last() =~= earlier + later.drop_last());
        lemma_changes_add_up(v, earlier, later.drop_last());
    } else {
        assert(earlier + later =~= earlier);
    }
}

/// The names above a record do not depend on how far up it may be followed, if that
/// is far enough.
proof fn lemma_enough_depth(entries: Map<u64, EntryView>, frn: u64, depth: nat, less: nat)
    requires
        lineage(entries, frn, depth) matches Some(names) && names.len() <= less <= depth,
        lineage(entries, frn, depth)->0.len() < depth,
    ensures
        lineage(entries, frn, less) == lineage(entries, frn, depth),
    decreases depth,
{
    if depth > 0 && frn != ROOT_FRN {
        let entry = entries[frn];
        assert(less > 0);
        if entry.parent != frn {
            lemma_enough_depth(entries, entry.parent, (depth - 1) as nat, (less - 1) as nat);
        }
    } else {
        assert(lineage(entries, frn, less) =~= lineage(entries, frn, depth));
    }
}

/// The path of a record is that of its directory with its own name behind it.
pub proof fn law_path_extends_that_of_the_parent(v: IndexView, frn: u64)
    requires
        frn != ROOT_FRN,
        v.entries.contains_key(frn),
        v.entries[frn].parent != frn,
        lineage(v.entries, v.entries[frn].parent, MAX_DEPTH as nat) matches Some(names)
            && names.len() < MAX_DEPTH,
    ensures
        ({
            let entry = v.entries[frn];
            let above = path_of(v, entry.parent)->0;
            path_of(v, frn) == Some(
                if entry.parent == ROOT_FRN {
                    above + entry.name
                } else {
                    above.push('\\') + entry.name
                },
            )
        }),
{
    let entry = v.entries[frn];
    let names = lineage(v.entries, entry.parent, MAX_DEPTH as nat)->0;
    lemma_enough_depth(v.entries, entry.parent, MAX_DEPTH as nat, (MAX_DEPTH - 1) as nat);
    let above = drive_root(v.drive) + joined(names, '\\');
    let all = names.push(entry.name);
    assert(all.drop_last() =~= names);
    assert(names.len() == 0 <==> entry.parent == ROOT_FRN);
    if names.len() == 0 {
        assert(above + entry.name =~= drive_root(v.drive) + joined(all, '\\'));
    } else {
        assert(above.push('\\') + entry.name =~= drive_root(v.drive) + joined(all, '\\'));
    }
}

/// Every path begins with the root of the drive.
pub proof fn law_path_begins_with_the_drive(v: IndexView, frn: u64)
    requires
        path_of(v, frn) is Some,
    ensures
        drive_root(v.drive).is_prefix_of(path_of(v, frn)->0),
{
    assert(path_of(v, frn)->0.take(3) =~= drive_root(v.drive));
}

/// Names that differ only in the case of letters have the same extension.
pub proof fn law_case_of_a_name_does_not_matter(a: Seq<char>, b: Seq<char>)
    requires
        lowered(a) == lowered(b),
    ensures
        extension(a) == extension(b),
        dotfile(a) == dotfile(b),
{
    lemma_same_letters(a, b);
    lemma_same_dots(a, b);
    lemma_same_rest(a, b, last_of(a, '.') + 1);
    lemma_same_rest(a, b, 1);
    lemma_last_of(a, '.');
}

/// What follows the same place in two such names differs only in the case of letters.
proof fn lemma_same_rest(a: Seq<char>, b: Seq<char>, from: int)
    requires
        lowered(a) == lowered(b),
        a.len() == b.len(),
    ensures
        0 <= from <= a.len() ==> lowered(a.skip(from)) == lowered(b.skip(from)),
{
    if 0 <= from <= a.len() {
        assert(lowered(a.skip(from)) =~= lowered(a).skip(from));
        assert(lowered(b.skip(from)) =~= lowered(b).skip(from));
    }
}

} // verus!
