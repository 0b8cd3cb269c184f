//! What an index says of a record: the path of the directories that lead to it, and the
//! extension that it is filed under.

use vstd::prelude::*;

use crate::buckets::lemma_without;
use crate::mft::{
    added, dotfile, extension, lineage, path_of, removed, EntryView, Index, IndexView,
};
use crate::text::{joined, lowered, upper};
use crate::text_laws::law_last_place;

verus! {

/// The extension of a name is what follows its last dot, in lower case, where something
/// stands before that dot and something follows it.
pub proof fn law_extension_follows_the_last_dot(stem: Seq<char>, ext: Seq<char>)
    requires
        ext.len() > 0,
        !ext.contains('.'),
    ensures
        stem.len() > 0 ==> extension(stem + seq!['.'] + ext) == Some(lowered(ext)),
        stem.len() > 0 ==> dotfile(stem + seq!['.'] + ext) is None,
        extension(seq!['.'] + ext) is None,
        dotfile(seq!['.'] + ext) == Some(lowered(ext)),
        extension(ext) is None && dotfile(ext) is None,
        extension(stem.push('.')) is None && dotfile(stem.push('.')) is None,
{
    let name = stem + seq!['.'] + ext;
    law_last_place(stem, '.', ext);
    assert(stem.push('.') + ext =~= name);
    assert(name.skip(stem.len() as int + 1) =~= ext);
    law_last_place(Seq::empty(), '.', ext);
    assert(Seq::empty().push('.') + ext =~= seq!['.'] + ext);
    assert((seq!['.'] + ext).skip(1) =~= ext);
    law_last_place(stem, '.', Seq::empty());
    assert(stem.push('.') + Seq::<char>::empty() =~= stem.push('.'));
}

/// Each record of `chain` lies in the one before it. None of them is the root directory or
/// its own parent, but for the first, which may be its own.
pub open spec fn is_chain(entries: Map<u64, EntryView>, chain: Seq<u64>) -> bool {
    &&& chain.len() > 0
    &&& forall|i: int|
        0 <= i < chain.len() ==> entries.contains_key(#[trigger] chain[i]) && chain[i]
            != 0x0005_0000_0000_0005
    &&& forall|i: int|
        0 < i < chain.len() ==> entries[#[trigger] chain[i]].parent == chain[i - 1] && chain[i]
            != chain[i - 1]
}

/// The names of the records of a chain.
pub open spec fn names_along(entries: Map<u64, EntryView>, chain: Seq<u64>) -> Seq<Seq<char>> {
    Seq::new(chain.len(), |i: int| entries[chain[i]].name)
}

/// The names that lead to a record of a chain are those along it.
proof fn lemma_lineage(entries: Map<u64, EntryView>, chain: Seq<u64>, depth: nat)
    requires
        is_chain(entries, chain),
        chain.len() <= depth,
        entries[chain[0]].parent == 0x0005_0000_0000_0005 || entries[chain[0]].parent == chain[0]
            || chain.len() == depth,
    ensures
        lineage(entries, chain.last(), depth) == Some(names_along(entries, chain)),
    decreases chain.len(),
{
    let last = chain.last();
    let above = chain.drop_last();
    assert(chain[chain.len() - 1] == last);
    let parent = entries[last].parent;
    if chain.len() == 1 {
        reveal_with_fuel(lineage, 2);
        if parent == last {
            assert(seq![entries[last].name] =~= names_along(entries, chain));
        } else {
            assert(Seq::empty().push(entries[last].name) =~= names_along(entries, chain));
        }
    } else {
        assert(above[0] == chain[0]);
        assert forall|i: int| 0 < i < above.len() implies entries[#[trigger] above[i]].parent
            == above[i - 1] && above[i] != above[i - 1] by {
            assert(above[i] == chain[i]);
        }
        assert forall|i: int| 0 <= i < above.len() implies entries.contains_key(
            #[trigger] above[i],
        ) && above[i] != 0x0005_0000_0000_0005 by {
            assert(above[i] == chain[i]);
        }
        lemma_lineage(entries, above, (depth - 1) as nat);
        assert(parent == above.last());
        assert(names_along(entries, above).push(entries[last].name) =~= names_along(
            entries,
            chain,
        ));
    }
}

/// The path of a record is the drive and the names of the directories that lead to it, and
/// its own, with a backslash between two neighbours. The way up ends at the root directory,
/// at a record that is its own parent, or after 256 names.
pub proof fn law_path_names_every_directory(v: IndexView, chain: Seq<u64>)
    requires
        is_chain(v.entries, chain),
        chain.len() <= 256,
        v.entries[chain[0]].parent == 0x0005_0000_0000_0005 || v.entries[chain[0]].parent
            == chain[0] || chain.len() == 256,
    ensures
        path_of(v, chain.last()) == Some(
            seq![upper(v.drive), ':', '\\'] + joined(names_along(v.entries, chain), '\\'),
        ),
{
    lemma_lineage(v.entries, chain, 256);
}

/// The names that lead to a record are not known if a directory on the way is not.
proof fn lemma_broken_lineage(entries: Map<u64, EntryView>, chain: Seq<u64>, depth: nat)
    requires
        is_chain(entries, chain),
        chain.len() < depth,
        entries[chain[0]].parent != 0x0005_0000_0000_0005,
        !entries.contains_key(entries[chain[0]].parent),
    ensures
        lineage(entries, chain.last(), depth) is None,
    decreases chain.len(),
{
    let last = chain.last();
    let above = chain.drop_last();
    assert(chain[chain.len() - 1] == last);
    if chain.len() == 1 {
        reveal_with_fuel(lineage, 2);
    } else {
        assert(above[0] == chain[0]);
        assert forall|i: int| 0 < i < above.len() implies entries[#[trigger] above[i]].parent
            == above[i - 1] && above[i] != above[i - 1] by {
            assert(above[i] == chain[i]);
        }
        assert forall|i: int| 0 <= i < above.len() implies entries.contains_key(
            #[trigger] above[i],
        ) && above[i] != 0x0005_0000_0000_0005 by {
            assert(above[i] == chain[i]);
        }
        lemma_broken_lineage(entries, above, (depth - 1) as nat);
    }
}

/// A record has no path if a directory on the way up, or the record itself, is not indexed.
/// The root directory always has one, which is the drive's.
pub proof fn law_path_needs_every_directory(v: IndexView, chain: Seq<u64>, frn: u64)
    ensures
        is_chain(v.entries, chain) && chain.len() < 256 && v.entries[chain[0]].parent
            != 0x0005_0000_0000_0005 && !v.entries.contains_key(v.entries[chain[0]].parent)
            ==> path_of(v, chain.last()) is None,
        frn != 0x0005_0000_0000_0005 && !v.entries.contains_key(frn) ==> path_of(v, frn) is None,
        path_of(v, 0x0005_0000_0000_0005) == Some(seq![upper(v.drive), ':', '\\']),
{
    if is_chain(v.entries, chain) && chain.len() < 256 && v.entries[chain[0]].parent
        != 0x0005_0000_0000_0005 && !v.entries.contains_key(v.entries[chain[0]].parent) {
        lemma_broken_lineage(v.entries, chain, 256);
    }
    assert(seq![upper(v.drive), ':', '\\'] + Seq::<char>::empty() =~= seq![
        upper(v.drive),
        ':',
        '\\',
    ]);
}

/// What is said of an index is said of its fields.
pub proof fn law_index_is_seen_as_it_is(index: Index, frn: u64)
    ensures
        index@.drive == index.drive,
        index@.journal_id == index.journal_id,
        index@.next_usn == index.next_usn,
        index@.entries.contains_key(frn) <==> index.entries@.contains_key(frn),
        index.entries@.contains_key(frn) ==> {
            &&& index@.entries[frn].parent == index.entries@[frn].parent
            &&& index@.entries[frn].name == index.entries@[frn].name@
            &&& index@.entries[frn].is_dir == index.entries@[frn].is_dir
        },
{
}

/// Adding gives a number its entry, and removing takes it away; no other entry changes, nor
/// does the drive, the journal, or the position in it.
pub proof fn law_one_entry_changes(v: IndexView, frn: u64, entry: EntryView, name: Seq<char>)
    ensures
        ({
            let after = added(v, frn, entry);
            &&& after.entries.contains_key(frn) && after.entries[frn] == entry
            &&& forall|other: u64|
                other != frn ==> (#[trigger] after.entries.contains_key(other)
                    <==> v.entries.contains_key(other))
            &&& forall|other: u64|
                other != frn && v.entries.contains_key(other) ==> #[trigger] after.entries[other]
                    == v.entries[other]
            &&& after.drive == v.drive
            &&& after.journal_id == v.journal_id
            &&& after.next_usn == v.next_usn
        }),
        ({
            let after = removed(v, frn, name);
            &&& !after.entries.contains_key(frn)
            &&& forall|other: u64|
                other != frn ==> (#[trigger] after.entries.contains_key(other)
                    <==> v.entries.contains_key(other))
            &&& forall|other: u64|
                other != frn && v.entries.contains_key(other) ==> #[trigger] after.entries[other]
                    == v.entries[other]
            &&& after.drive == v.drive
            &&& after.journal_id == v.journal_id
            &&& after.next_usn == v.next_usn
        }),
{
}

/// Where a record is filed: under what follows the last dot of its name, in lower case, it
/// is listed once it was added, and it is no longer once it was removed.
pub proof fn law_records_are_filed_by_extension(
    v: IndexView,
    frn: u64,
    parent: u64,
    is_dir: bool,
    stem: Seq<char>,
    ext: Seq<char>,
)
    requires
        stem.len() > 0,
        ext.len() > 0,
        !ext.contains('.'),
    ensures
        ({
            let name = stem + seq!['.'] + ext;
            let after = added(v, frn, EntryView { parent, name, is_dir });
            let gone = removed(after, frn, name);
            &&& after.by_ext.contains_key(lowered(ext))
            &&& after.by_ext[lowered(ext)].contains(frn)
            &&& gone.by_ext.contains_key(lowered(ext)) ==> !gone.by_ext[lowered(ext)].contains(frn)
        }),
{
    let name = stem + seq!['.'] + ext;
    let after = added(v, frn, EntryView { parent, name, is_dir });
    law_extension_follows_the_last_dot(stem, ext);
    let list = after.by_ext[lowered(ext)];
    assert(list.last() == frn);
    assert(list[list.len() - 1] == frn);
    lemma_without(list, frn);
}

} // verus!
