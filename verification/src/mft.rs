//! The in-memory index of one volume: every file and directory of its master file
//! table, by file reference number (FRN).

#[allow(unused_imports)]
use std::collections::hash_map::Keys;
use std::collections::HashMap;

use vstd::prelude::*;

use crate::buckets::Extensions;
#[allow(unused_imports)]
use crate::buckets::{bucket, filed, withdrawn};
use crate::text::{after_last, chars_of, lower_string_from, push_joined, upper_char};
#[allow(unused_imports)]
use crate::text::{joined, last_of, lowered, texts, upper};

verus! {

broadcast use vstd::std_specs::hash::group_hash_axioms;

/// Fixed FRN of the NTFS root directory.
pub const ROOT_FRN: u64 = 0x0005_0000_0000_0005;

/// How many levels a path is followed upwards. Corrupt data can hold a cycle.
pub const MAX_DEPTH: usize = 256;

/// One filesystem record (filename metadata only, no content).
#[derive(Clone, Debug)]
pub struct Entry {
    pub parent: u64,
    pub name: String,
    pub is_dir: bool,
}

/// An entry with its name as text.
pub ghost struct EntryView {
    pub parent: u64,
    pub name: Seq<char>,
    pub is_dir: bool,
}

impl View for Entry {
    type V = EntryView;

    open spec fn view(&self) -> EntryView {
        EntryView { parent: self.parent, name: self.name@, is_dir: self.is_dir }
    }
}

/// In-memory index: FRN -> Entry.
pub struct Index {
    pub drive: char,
    pub entries: HashMap<u64, Entry>,
    /// Inverted index: lowercased extension (without dot) -> FRNs with that
    /// extension. This is what lets `*.rs` hit only the matching entries instead of
    /// scanning all of them.
    pub by_ext: Extensions,
    /// Id of the change journal that `next_usn` is a position in.
    pub journal_id: u64,
    /// Where the next incremental read of the journal starts.
    pub next_usn: i64,
}

/// What an index holds.
pub ghost struct IndexView {
    pub drive: char,
    pub entries: Map<u64, EntryView>,
    /// The files with an extension, by it.
    pub by_ext: Map<Seq<char>, Seq<u64>>,
    /// The dotfiles, which have no extension, by their lowercased name without the
    /// dot: a glob such as `*.rs` matches a file named `.rs` too.
    pub by_dotfile: Map<Seq<char>, Seq<u64>>,
    pub journal_id: u64,
    pub next_usn: i64,
}

impl View for Index {
    type V = IndexView;

    open spec fn view(&self) -> IndexView {
        IndexView {
            drive: self.drive,
            entries: self.entries@.map_values(|e: Entry| e@),
            by_ext: self.by_ext@.named,
            by_dotfile: self.by_ext@.dotted,
            journal_id: self.journal_id,
            next_usn: self.next_usn,
        }
    }
}

/// Lowercased extension of a filename, without the dot: what follows the last dot,
/// where something follows it and something stands before it.
pub open spec fn extension(name: Seq<char>) -> Option<Seq<char>> {
    let dot = last_of(name, '.');
    if dot <= 0 || dot + 1 >= name.len() {
        None
    } else {
        Some(lowered(name.skip(dot + 1)))
    }
}

/// Lowercased name of a dotfile, without the dot, if that is the only one.
pub open spec fn dotfile(name: Seq<char>) -> Option<Seq<char>> {
    if last_of(name, '.') == 0 && name.len() > 1 {
        Some(lowered(name.skip(1)))
    } else {
        None
    }
}

/// What a name is filed under: its extension or, if it is a dotfile, what follows the
/// dot.
pub open spec fn key_of(name: Seq<char>) -> Option<Seq<char>> {
    match extension(name) {
        Some(ext) => Some(ext),
        None => dotfile(name),
    }
}

/// The records filed under `key`, as the inverted index lists them: the files with that
/// extension, and then the dotfiles of that name.
pub open spec fn pinned_order(v: IndexView, key: Seq<char>) -> Seq<u64> {
    bucket(v.by_ext, key) + bucket(v.by_dotfile, key)
}

/// The index after the entry of `frn` has become the one given: its old place in
/// the inverted index, if it had one, is given up first, and so is every place under
/// the key of the new name.
pub open spec fn added(v: IndexView, frn: u64, entry: EntryView) -> IndexView {
    let cleared = if v.entries.contains_key(frn) {
        unfiled(v, frn, v.entries[frn].name)
    } else {
        v
    };
    let key = key_of(entry.name);
    IndexView {
        entries: v.entries.insert(frn, entry),
        by_ext: filed(withdrawn(cleared.by_ext, key, frn), extension(entry.name), frn),
        by_dotfile: filed(withdrawn(cleared.by_dotfile, key, frn), dotfile(entry.name), frn),
        ..v
    }
}

/// The index with `frn` no longer filed under `name`.
pub open spec fn unfiled(v: IndexView, frn: u64, name: Seq<char>) -> IndexView {
    IndexView {
        by_ext: withdrawn(v.by_ext, extension(name), frn),
        by_dotfile: withdrawn(v.by_dotfile, dotfile(name), frn),
        ..v
    }
}

/// The index after `frn`, known as `name`, was removed.
pub open spec fn removed(v: IndexView, frn: u64, name: Seq<char>) -> IndexView {
    IndexView { entries: v.entries.remove(frn), ..unfiled(v, frn, name) }
}

/// The names that lead from the top to the record `frn`, which is not followed
/// upwards beyond the root directory, beyond a record that is its own parent, or
/// beyond `depth` names. `None` if a record on the way is not indexed.
pub open spec fn lineage(entries: Map<u64, EntryView>, frn: u64, depth: nat) -> Option<
    Seq<Seq<char>>,
>
    decreases depth,
{
    if depth == 0 || frn == ROOT_FRN {
        Some(Seq::empty())
    } else if !entries.contains_key(frn) {
        None
    } else {
        let entry = entries[frn];
        if entry.parent == frn {
            Some(seq![entry.name])
        } else {
            match lineage(entries, entry.parent, (depth - 1) as nat) {
                Some(above) => Some(above.push(entry.name)),
                None => None,
            }
        }
    }
}

/// The drive's root, e.g. `C:\`.
pub open spec fn drive_root(drive: char) -> Seq<char> {
    seq![upper(drive), ':', '\\']
}

/// The full path of a record, e.g. `C:\Users\foo\bar.txt`.
pub open spec fn path_of(v: IndexView, frn: u64) -> Option<Seq<char>> {
    match lineage(v.entries, frn, MAX_DEPTH as nat) {
        Some(names) => Some(drive_root(v.drive) + joined(names, '\\')),
        None => None,
    }
}

/// Lowercased extension of a filename (without the dot), if it has one.
/// Dotfiles like `.gitignore` (leading dot, nothing before it) yield `None`.
pub fn ext_of(name: &str) -> (ext: Option<String>)
    ensures
        ext is Some <==> extension(name@) is Some,
        ext matches Some(e) ==> Some(e@) == extension(name@),
{
    let chars = chars_of(name);
    let from = after_last(&chars, '.');
    if from <= 1 || from >= chars.len() {
        return None;
    }
    Some(lower_string_from(&chars, from))
}

/// Lowercased name of a dotfile, without its dot.
pub fn dotfile_of(name: &str) -> (rest: Option<String>)
    ensures
        rest is Some <==> dotfile(name@) is Some,
        rest matches Some(r) ==> Some(r@) == dotfile(name@),
{
    let chars = chars_of(name);
    if after_last(&chars, '.') != 1 || chars.len() <= 1 {
        return None;
    }
    Some(lower_string_from(&chars, 1))
}

impl Default for Index {
    fn default() -> (index: Self)
        ensures
            index@.entries == Map::<u64, EntryView>::empty(),
            index@.by_ext == Map::<Seq<char>, Seq<u64>>::empty(),
            index@.by_dotfile == Map::<Seq<char>, Seq<u64>>::empty(),
            index.drive == '\0',
            index.journal_id == 0,
            index.next_usn == 0,
    {
        let index = Index {
            drive: '\0',
            entries: HashMap::new(),
            by_ext: Extensions::new(),
            journal_id: 0,
            next_usn: 0,
        };
        assert(index@.entries =~= Map::<u64, EntryView>::empty());
        index
    }
}

impl Index {
    /// The records, as walking the hash map yields them.
    pub open spec fn walk(&self) -> Keys<'_, u64, Entry> {
        vstd::std_specs::hash::spec_keys_iter(&self.entries)
    }

    /// Gives up the places of `frn` in the inverted index that `name` stands for.
    fn unfile(&mut self, frn: u64, name: &str)
        ensures
            final(self)@ == unfiled(old(self)@, frn, name@),
            final(self).entries == old(self).entries,
    {
        if let Some(ext) = ext_of(name) {
            self.by_ext.withdraw(ext.as_str(), frn);
        }
        if let Some(rest) = dotfile_of(name) {
            self.by_ext.withdraw_dotfile(rest.as_str(), frn);
        }
    }

    /// Insert an entry and update the extension index.
    ///
    /// Idempotent per FRN: if this FRN is already indexed (a re-create, a rename,
    /// or a single create that emits several USN records), its previous extension
    /// slot is dropped first. A slot under the new extension that a removal under
    /// another name left behind is dropped too, so that no bucket holds the same FRN
    /// twice.
    pub fn add_indexed(&mut self, frn: u64, parent: u64, name: String, is_dir: bool)
        ensures
            final(self)@ == added(old(self)@, frn, EntryView { parent, name: name@, is_dir }),
    {
        let known: Option<String> = match self.entries.get(&frn) {
            Some(entry) => Some(entry.name.clone()),
            None => None,
        };
        if let Some(previous) = known {
            self.unfile(frn, previous.as_str());
        }
        if let Some(ext) = ext_of(name.as_str()) {
            self.by_ext.file(ext.as_str(), frn);
        }
        if let Some(rest) = dotfile_of(name.as_str()) {
            self.by_ext.file_dotfile(rest.as_str(), frn);
        }
        let ghost named = name@;
        self.entries.insert(frn, Entry { parent, name, is_dir });
        assert(self@.entries =~= old(self)@.entries.insert(
            frn,
            EntryView { parent, name: named, is_dir },
        ));
    }

    /// Remove an entry (and its extension-index slot) given its known name.
    pub fn remove_indexed(&mut self, frn: u64, name: &str)
        ensures
            final(self)@ == removed(old(self)@, frn, name@),
    {
        self.unfile(frn, name);
        self.entries.remove(&frn);
        assert(self@.entries =~= old(self)@.entries.remove(frn));
    }

    /// Rebuild the full path of a record, e.g. `C:\Users\foo\bar.txt`.
    /// Guards against cyclic references (corrupt data): walks up at most 256 levels.
    pub fn full_path(&self, frn: u64) -> (path: Option<String>)
        ensures
            path is Some <==> path_of(self@, frn) is Some,
            path matches Some(p) ==> Some(p@) == path_of(self@, frn),
    {
        let mut parts: Vec<&str> = Vec::new();
        let mut cur: u64 = frn;
        let mut left: usize = MAX_DEPTH;
        let ghost entries = self@.entries;
        let ghost whole = lineage(entries, frn, MAX_DEPTH as nat);
        assert(texts(parts@).reverse() =~= Seq::empty());
        while left > 0 && cur != ROOT_FRN
            invariant_except_break
                whole == above_and_below(lineage(entries, cur, left as nat), texts(parts@)),
            invariant
                entries == self@.entries,
                whole == lineage(entries, frn, MAX_DEPTH as nat),
                left <= MAX_DEPTH,
            ensures
                whole == Some(texts(parts@).reverse()),
            decreases left,
        {
            let ghost below = texts(parts@);
            let entry = match self.entries.get(&cur) {
                Some(entry) => entry,
                None => {
                    return None;
                },
            };
            assert(entries[cur] == entry@);
            parts.push(entry.name.as_str());
            assert(texts(parts@) =~= below.push(entry.name@));
            assert(texts(parts@).reverse() =~= seq![entry.name@] + below.reverse());
            if entry.parent == cur {
                break;
            }
            proof {
                if let Some(above) = lineage(entries, entry.parent, (left - 1) as nat) {
                    assert(above.push(entry.name@) + below.reverse() =~= above + texts(
                        parts@,
                    ).reverse());
                }
            }
            cur = entry.parent;
            left -= 1;
        }
        let mut names: Vec<&str> = Vec::new();
        let ghost upward = texts(parts@);
        assert(texts(names@) =~= Seq::empty());
        while parts.len() > 0
            invariant
                texts(names@) + texts(parts@).reverse() =~= upward.reverse(),
            decreases parts@.len(),
        {
            let ghost before = texts(names@) + texts(parts@).reverse();
            if let Some(name) = parts.pop() {
                names.push(name);
                assert(texts(names@) + texts(parts@).reverse() =~= before);
            }
        }
        assert(texts(names@) =~= upward.reverse());
        let mut path = String::new();
        path.push(upper_char(self.drive));
        path.push(':');
        path.push('\\');
        assert(path@ =~= drive_root(self.drive));
        push_joined(&mut path, &names, '\\');
        Some(path)
    }
}

/// The names above a record, where they are known, followed by those from it
/// downwards, which are listed from the bottom up.
spec fn above_and_below(above: Option<Seq<Seq<char>>>, upward: Seq<Seq<char>>) -> Option<
    Seq<Seq<char>>,
> {
    match above {
        Some(names) => Some(names + upward.reverse()),
        None => None,
    }
}

} // verus!
