//! What holds of every answer to a query: nothing is found that should not be, no
//! record is found twice, nothing is missed unless the cap was reached, the inverted
//! index finds what a full scan does, and spelling does not matter.

use vstd::prelude::*;

use crate::buckets::{bucket, lemma_both_has};
use crate::glob::{
    depth_after, fixed_ext, glob_accepts, is_literal, is_shallow,
    lemma_place_with_slashes, makes_range, moved, place_after, respelt, same_case, separates,
    tail_of, with_slashes, Place,
};
use crate::index_laws::{is_filed, law_no_number_twice, well_filed};
use crate::mft::{dotfile, drive_root, extension, path_of, pinned_order, IndexView};
use crate::search::{
    counts_fit, drive_in, drive_searched, enough, hit_of, hit_views, hits_in, is_answer, is_scan,
    is_search, is_slash, is_sound, law_prefilter_loses_nothing, lemma_with_entries, order_of,
    passes_path, pattern_accepts, pattern_error, refused_in_any_case, relative, rule_of, trimmed,
    Found, HitView, Query, Rule, LITERAL_SEPARATOR,
};
use crate::text::{
    last_of, lemma_last_of, lemma_lower_dot, lemma_same_dots, lemma_same_letters, lower, lowered,
    replaced, upper,
};

verus! {

/// The records of `frns`, which are different ones, yield the rows of `hits`.
pub open spec fn are_rows_of(
    rule: Rule,
    v: IndexView,
    frns: Seq<u64>,
    hits: Seq<HitView>,
) -> bool {
    &&& frns.no_duplicates()
    &&& frns.len() == hits.len()
    &&& forall|i: int|
        0 <= i < hits.len() ==> #[trigger] hit_of(rule, v, frns[i]) == Some(hits[i])
}

/// The inverted index of a well filed index lists, each once, every record that a query
/// which fixes the extension finds.
pub proof fn law_inverted_index_is_complete(rule: Rule, v: IndexView, ext: Seq<char>)
    requires
        well_filed(v),
        is_sound(rule),
        fixed_ext(rule.pattern) == Some(ext),
    ensures
        pinned_order(v, ext).no_duplicates(),
        forall|frn: u64|
            (#[trigger] hit_of(rule, v, frn)) is Some ==> pinned_order(v, ext).contains(frn),
{
    law_no_number_twice(v, ext);
    assert forall|frn: u64| (#[trigger] hit_of(rule, v, frn)) is Some implies pinned_order(
        v,
        ext,
    ).contains(frn) by {
        law_prefilter_loses_nothing(rule, v, frn);
        lemma_fixed_key(rule.pattern, v.entries[frn].name);
        assert(v.entries.contains_key(frn));
        assert(is_filed(v, frn));
        lemma_both_has(bucket(v.by_ext, ext), bucket(v.by_dotfile, ext), frn);
    }
}

/// A name that ends as the pattern does is filed under the extension that it fixes.
proof fn lemma_fixed_key(pattern: Seq<char>, name: Seq<char>)
    requires
        lowered(tail_of(pattern)).is_suffix_of(lowered(name)),
        fixed_ext(pattern) is Some,
    ensures
        extension(name) == fixed_ext(pattern) || dotfile(name) == fixed_ext(pattern),
{
    let tail = tail_of(pattern);
    let dot = last_of(tail, '.');
    let from = name.len() - tail.len();
    let end = lowered(name).subrange(from, name.len() as int);
    lemma_last_of(tail, '.');
    assert forall|j: int| 0 <= j < tail.len() implies lower(#[trigger] tail[j]) == lower(
        name[from + j],
    ) by {
        assert(lowered(tail)[j] == end[j]);
        assert(end[j] == lower(name[from + j]));
    }
    assert(name[from + dot] == '.') by {
        assert(lower(tail[dot]) == lower(name[from + dot]));
        lemma_lower_dot(name[from + dot]);
    }
    assert forall|i: int| from + dot < i < name.len() implies #[trigger] name[i] != '.' by {
        let j = i - from;
        assert(lower(tail[j]) == lower(name[from + j]));
        lemma_lower_dot(tail[j]);
        lemma_lower_dot(name[i]);
    }
    lemma_last_of(name, '.');
    assert(last_of(name, '.') == from + dot);
    assert(lowered(name.skip(from + dot + 1)) =~= lowered(tail.skip(dot + 1))) by {
        assert forall|k: int| 0 <= k < tail.len() - dot - 1 implies lowered(
            name.skip(from + dot + 1),
        )[k] == #[trigger] lowered(tail.skip(dot + 1))[k] by {
            assert(lower(tail[dot + 1 + k]) == lower(name[from + (dot + 1 + k)]));
        }
    }
}

/// The rows found along an order are those of some of its records, in their order.
proof fn lemma_rows_along(rule: Rule, v: IndexView, order: Seq<u64>) -> (frns: Seq<u64>)
    requires
        order.no_duplicates(),
    ensures
        are_rows_of(rule, v, frns, hits_in(rule, v, order)),
        forall|frn: u64| #[trigger] frns.contains(frn) <==> order.contains(frn) && hit_of(
            rule,
            v,
            frn,
        ) is Some,
    decreases order.len(),
{
    if order.len() == 0 {
        Seq::empty()
    } else {
        let before = order.drop_last();
        let last = order.last();
        let earlier = lemma_rows_along(rule, v, before);
        assert(order == before.push(last));
        assert(!before.contains(last)) by {
            if before.contains(last) {
                assert(order[before.index_of(last)] == order[order.len() - 1]);
            }
        }
        assert forall|frn: u64| #[trigger] order.contains(frn) <==> before.contains(frn) || frn
            == last by {
            if before.contains(frn) {
                assert(order[before.index_of(frn)] == frn);
            }
            assert(order[order.len() - 1] == last);
        }
        let hits = hits_in(rule, v, order);
        match hit_of(rule, v, last) {
            Some(hit) => {
                let frns = earlier.push(last);
                assert(!earlier.contains(last));
                assert forall|frn: u64| #[trigger] frns.contains(frn) <==> earlier.contains(frn)
                    || frn == last by {
                    if earlier.contains(frn) {
                        assert(frns[earlier.index_of(frn)] == frn);
                    }
                    assert(frns[earlier.len() as int] == last);
                }
                assert forall|i: int, j: int|
                    0 <= i < frns.len() && 0 <= j < frns.len() && i != j implies frns[i]
                    != frns[j] by {
                    if i < earlier.len() {
                        assert(earlier.contains(earlier[i]));
                    }
                    if j < earlier.len() {
                        assert(earlier.contains(earlier[j]));
                    }
                }
                assert forall|i: int| 0 <= i < hits.len() implies #[trigger] hit_of(
                    rule,
                    v,
                    frns[i],
                ) == Some(hits[i]) by {
                    if i < earlier.len() {
                        assert(hit_of(rule, v, earlier[i]) == Some(
                            hits_in(rule, v, before)[i],
                        ));
                    }
                }
                frns
            },
            None => earlier,
        }
    }
}

/// Every row of an answer is that of a record which passes the query, and no record
/// has two of them, whatever was done to the index.
pub proof fn law_rows_are_of_different_records(
    rule: Rule,
    v: IndexView,
    scan: Seq<u64>,
    max: usize,
    found: Found,
) -> (frns: Seq<u64>)
    requires
        is_answer(rule, v, scan, max, found),
    ensures
        are_rows_of(rule, v, frns, hit_views(found.hits@)),
{
    let looked_at = order_of(rule, v, scan).take(found.scanned as int);
    let rows = hits_in(rule, v, looked_at);
    let hits = hit_views(found.hits@);
    let frns = lemma_rows_along(rule, v, looked_at);
    let shown = frns.take(hits.len() as int);
    assert forall|i: int| 0 <= i < hits.len() implies #[trigger] hit_of(rule, v, shown[i]) == Some(
        hits[i],
    ) by {
        assert(hit_of(rule, v, frns[i]) == Some(rows[i]));
    }
    shown
}

/// The order in which a query looks at the records of a well filed index names all
/// that may be found.
proof fn lemma_order(rule: Rule, v: IndexView, scan: Seq<u64>)
    requires
        well_filed(v),
        is_sound(rule),
        is_scan(v, scan),
    ensures
        order_of(rule, v, scan).no_duplicates(),
        forall|frn: u64|
            (#[trigger] hit_of(rule, v, frn)) is Some ==> order_of(rule, v, scan).contains(frn),
{
    match fixed_ext(rule.pattern) {
        Some(ext) => {
            law_inverted_index_is_complete(rule, v, ext);
            lemma_with_entries(v, pinned_order(v, ext));
        },
        None => {
            assert forall|frn: u64| (#[trigger] hit_of(rule, v, frn)) is Some implies scan.contains(
                frn,
            ) by {
                assert(scan.to_set().contains(frn) <==> scan.contains(frn));
            }
        },
    }
}

/// An answer that was not cut off misses nothing: each record that passes the query
/// has its row.
pub proof fn law_nothing_is_missed(
    rule: Rule,
    v: IndexView,
    scan: Seq<u64>,
    max: usize,
    found: Found,
)
    requires
        well_filed(v),
        is_sound(rule),
        is_answer(rule, v, scan, max, found),
        !found.truncated,
    ensures
        forall|frn: u64|
            (#[trigger] hit_of(rule, v, frn)) matches Some(hit) ==> hit_views(
                found.hits@,
            ).contains(hit),
{
    let order = order_of(rule, v, scan);
    lemma_order(rule, v, scan);
    assert(order.take(found.scanned as int) =~= order);
    let frns = lemma_rows_along(rule, v, order);
    assert forall|frn: u64| (#[trigger] hit_of(rule, v, frn)) is Some implies hit_views(
        found.hits@,
    ).contains(hit_of(rule, v, frn)->0) by {
        assert(frns.contains(frn));
        let i = frns.index_of(frn);
        assert(hit_of(rule, v, frns[i]) == Some(hit_views(found.hits@)[i]));
    }
}

/// An answer holds the paths of records that pass the query, each of another record; one
/// that was not cut off holds the path of every record that does.
pub proof fn law_answers_are_exact(
    rule: Rule,
    v: IndexView,
    scan: Seq<u64>,
    max: usize,
    found: Found,
) -> (frns: Seq<u64>)
    requires
        well_filed(v),
        is_sound(rule),
        is_answer(rule, v, scan, max, found),
    ensures
        frns.len() == found.hits@.len(),
        forall|i: int, j: int| 0 <= i < j < frns.len() ==> frns[i] != frns[j],
        forall|i: int|
            0 <= i < found.hits@.len() ==> {
                let hit = #[trigger] found.hits@[i];
                &&& v.entries.contains_key(frns[i])
                &&& path_of(v, frns[i]) == Some(hit.path@)
                &&& hit.is_dir == v.entries[frns[i]].is_dir
                &&& hit_of(rule, v, frns[i]) is Some
            },
        !found.truncated ==> forall|frn: u64|
            (#[trigger] hit_of(rule, v, frn)) is Some ==> exists|i: int|
                0 <= i < found.hits@.len() && path_of(v, frn) == Some(
                    (#[trigger] found.hits@[i]).path@,
                ) && found.hits@[i].is_dir == v.entries[frn].is_dir,
{
    let frns = law_rows_are_of_different_records(rule, v, scan, max, found);
    let hits = hit_views(found.hits@);
    assert forall|i: int| 0 <= i < found.hits@.len() implies {
        let hit = #[trigger] found.hits@[i];
        &&& v.entries.contains_key(frns[i])
        &&& path_of(v, frns[i]) == Some(hit.path@)
        &&& hit.is_dir == v.entries[frns[i]].is_dir
        &&& hit_of(rule, v, frns[i]) is Some
    } by {
        assert(hit_of(rule, v, frns[i]) == Some(hits[i]));
    }
    if !found.truncated {
        law_nothing_is_missed(rule, v, scan, max, found);
        assert forall|frn: u64| (#[trigger] hit_of(rule, v, frn)) is Some implies exists|i: int|
            0 <= i < found.hits@.len() && path_of(v, frn) == Some(
                (#[trigger] found.hits@[i]).path@,
            ) && found.hits@[i].is_dir == v.entries[frn].is_dir by {
            let hit = hit_of(rule, v, frn)->0;
            assert(hits.contains(hit));
            let i = hits.index_of(hit);
            assert(hits[i] == found.hits@[i]@);
        }
    }
    frns
}

/// An answer that was not cut off holds one row for each record that passes the query,
/// and nothing else: the rows are those of all records, in whichever order `all` lists
/// them.
pub proof fn law_uncut_answer_is_that_of_all_records(
    rule: Rule,
    v: IndexView,
    scan: Seq<u64>,
    max: usize,
    found: Found,
    all: Seq<u64>,
)
    requires
        well_filed(v),
        is_sound(rule),
        is_answer(rule, v, scan, max, found),
        !found.truncated,
        is_scan(v, all),
    ensures
        hit_views(found.hits@).to_multiset() == hits_in(rule, v, all).to_multiset(),
{
    let order = order_of(rule, v, scan);
    lemma_order(rule, v, scan);
    assert(order.take(found.scanned as int) =~= order);
    assert forall|frn: u64| (#[trigger] hit_of(rule, v, frn)) is Some implies (order.contains(frn)
        <==> all.contains(frn)) by {
        assert(all.to_set().contains(frn) <==> all.contains(frn));
    }
    lemma_order_does_not_matter(rule, v, order, all);
}

/// A list of different records is no longer than there are records, and a list of rows
/// found along it no longer than the list.
proof fn lemma_no_more_than_records(rule: Rule, v: IndexView, scan: Seq<u64>, order: Seq<u64>)
    requires
        is_scan(v, scan),
        order.no_duplicates(),
        forall|frn: u64| #[trigger] order.contains(frn) ==> v.entries.contains_key(frn),
    ensures
        scan.len() == v.entries.dom().len(),
        hits_in(rule, v, order).len() <= order.len() <= v.entries.dom().len(),
    decreases order.len(),
{
    scan.unique_seq_to_set();
    vstd::seq_lib::seq_to_set_is_finite(scan);
    order.unique_seq_to_set();
    assert(order.to_set().subset_of(v.entries.dom())) by {
        assert forall|frn: u64| order.to_set().contains(frn) implies v.entries.dom().contains(
            frn,
        ) by {
            assert(order.contains(frn));
        }
    }
    vstd::set_lib::lemma_len_subset(order.to_set(), v.entries.dom());
    if order.len() > 0 {
        let before = order.drop_last();
        assert forall|frn: u64| #[trigger] before.contains(frn) implies v.entries.contains_key(
            frn,
        ) by {
            assert(order[before.index_of(frn)] == frn);
        }
        lemma_no_more_than_records(rule, v, scan, before);
    }
}

/// Only records are looked at, each at most once.
proof fn lemma_order_is_of_records(rule: Rule, v: IndexView, scan: Seq<u64>)
    requires
        is_scan(v, scan),
    ensures
        forall|frn: u64| #[trigger]
            order_of(rule, v, scan).contains(frn) ==> v.entries.contains_key(frn),
{
    match fixed_ext(rule.pattern) {
        Some(ext) => {
            lemma_with_entries(v, pinned_order(v, ext));
        },
        None => {
            assert forall|frn: u64| #[trigger] scan.contains(frn) implies v.entries.contains_key(
                frn,
            ) by {
                assert(scan.to_set().contains(frn));
            }
        },
    }
}

/// The counts of an answer fit together, whatever was done to the index.
pub proof fn law_counts_fit(rule: Rule, v: IndexView, scan: Seq<u64>, max: usize, found: Found)
    requires
        is_answer(rule, v, scan, max, found),
    ensures
        counts_fit(rule, v, max, found),
        found.hits@.len() <= max,
        found.hits@.len() <= found.scanned <= v.entries.dom().len(),
        max >= 1 ==> (found.truncated <==> found.hits@.len() == max),
        max == 0 && found.truncated ==> exists|frn: u64|
            (#[trigger] hit_of(rule, v, frn)) is Some,
        fixed_ext(rule.pattern) is None && !found.truncated ==> found.scanned
            == v.entries.dom().len(),
{
    let order = order_of(rule, v, scan);
    let looked_at = order.take(found.scanned as int);
    let rows = hits_in(rule, v, looked_at);
    assert(hit_views(found.hits@).len() == found.hits@.len());
    lemma_order_is_of_records(rule, v, scan);
    assert forall|frn: u64| #[trigger] looked_at.contains(frn) implies v.entries.contains_key(
        frn,
    ) by {
        assert(order[looked_at.index_of(frn)] == frn);
        assert(order.contains(frn));
    }
    lemma_no_more_than_records(rule, v, scan, looked_at);
    if found.truncated {
        let before = order.take(found.scanned - 1);
        assert(found.scanned > 0) by {
            assert(looked_at.len() == found.scanned);
        }
        assert(looked_at.drop_last() =~= before);
        assert(rows.len() == enough(max));
        let frns = lemma_rows_along(rule, v, looked_at);
        assert(hit_of(rule, v, frns[0]) == Some(rows[0]));
    }
}

/// A cap that is larger than the number of records is never reached.
pub proof fn law_large_cap_is_never_reached(
    rule: Rule,
    v: IndexView,
    scan: Seq<u64>,
    max: usize,
    found: Found,
)
    requires
        is_answer(rule, v, scan, max, found),
        max > v.entries.dom().len(),
    ensures
        !found.truncated,
{
    law_counts_fit(rule, v, scan, max, found);
}

/// Every row lies below the root directory, matches the pattern there, and is left
/// out neither by the rule on `.git` nor by an ignore rule.
pub proof fn law_rows_pass(
    rule: Rule,
    v: IndexView,
    scan: Seq<u64>,
    max: usize,
    found: Found,
)
    requires
        is_answer(rule, v, scan, max, found),
    ensures
        forall|i: int|
            0 <= i < found.hits@.len() ==> {
                let hit = #[trigger] hit_views(found.hits@)[i];
                relative(hit.path, rule.prefix) matches Some(rel) && passes_path(
                    rule,
                    rel,
                    hit.is_dir,
                )
            },
{
    let frns = law_rows_are_of_different_records(rule, v, scan, max, found);
    let hits = hit_views(found.hits@);
    assert forall|i: int| 0 <= i < found.hits@.len() implies {
        let hit = #[trigger] hits[i];
        relative(hit.path, rule.prefix) matches Some(rel) && passes_path(rule, rel, hit.is_dir)
    } by {
        assert(hit_of(rule, v, frns[i]) == Some(hits[i]));
    }
}

/// A search of the inverted index and one of all records find the same rows: each as
/// often in the one as in the other.
pub proof fn law_inverted_index_finds_what_a_scan_does(
    rule: Rule,
    v: IndexView,
    ext: Seq<char>,
    scan: Seq<u64>,
)
    requires
        well_filed(v),
        is_sound(rule),
        fixed_ext(rule.pattern) == Some(ext),
        is_scan(v, scan),
    ensures
        hits_in(rule, v, pinned_order(v, ext)).to_multiset() == hits_in(
            rule,
            v,
            scan,
        ).to_multiset(),
{
    law_inverted_index_is_complete(rule, v, ext);
    let fast = pinned_order(v, ext);
    assert forall|frn: u64| (#[trigger] hit_of(rule, v, frn)) is Some implies fast.contains(frn)
        && scan.contains(frn) by {
        assert(scan.to_set().contains(frn) <==> scan.contains(frn));
    }
    lemma_order_does_not_matter(rule, v, fast, scan);
}

/// Two orders that both name every record with a row, and none twice, yield the same
/// rows.
proof fn lemma_order_does_not_matter(rule: Rule, v: IndexView, a: Seq<u64>, b: Seq<u64>)
    requires
        a.no_duplicates(),
        b.no_duplicates(),
        forall|frn: u64|
            (#[trigger] hit_of(rule, v, frn)) is Some ==> (a.contains(frn) <==> b.contains(frn)),
    ensures
        hits_in(rule, v, a).to_multiset() == hits_in(rule, v, b).to_multiset(),
    decreases a.len(),
{
    if a.len() == 0 {
        lemma_no_rows(rule, v, b);
    } else {
        let last = a.last();
        let rest = a.drop_last();
        assert forall|frn: u64| #[trigger] a.contains(frn) <==> rest.contains(frn) || frn
            == last by {
            if rest.contains(frn) {
                assert(a[rest.index_of(frn)] == frn);
            }
            if a.contains(frn) && frn != last {
                assert(rest[a.index_of(frn)] == frn);
            }
            assert(a[a.len() - 1] == last);
        }
        assert(!rest.contains(last)) by {
            if rest.contains(last) {
                assert(a[rest.index_of(last)] == a[a.len() - 1]);
            }
        }
        match hit_of(rule, v, last) {
            Some(hit) => {
                assert(b.contains(last));
                let i = b.index_of(last);
                let other = b.remove(i);
                lemma_row_taken_out(rule, v, b, i);
                assert forall|frn: u64| #[trigger] other.contains(frn) <==> b.contains(frn) && frn
                    != last by {
                    lemma_removed_has(b, i, frn);
                }
                lemma_removed_unique(b, i);
                lemma_order_does_not_matter(rule, v, rest, other);
                broadcast use vstd::seq_lib::group_to_multiset_ensures;

                assert(hits_in(rule, v, a).to_multiset() =~= hits_in(
                    rule,
                    v,
                    rest,
                ).to_multiset().insert(hit));
            },
            None => {
                lemma_order_does_not_matter(rule, v, rest, b);
            },
        }
    }
}

/// Records without rows yield none.
proof fn lemma_no_rows(rule: Rule, v: IndexView, order: Seq<u64>)
    requires
        forall|frn: u64| order.contains(frn) ==> (#[trigger] hit_of(rule, v, frn)) is None,
    ensures
        hits_in(rule, v, order) == Seq::<HitView>::empty(),
    decreases order.len(),
{
    if order.len() > 0 {
        assert(order.contains(order.last()));
        assert forall|frn: u64| order.drop_last().contains(frn) implies (#[trigger] hit_of(
            rule,
            v,
            frn,
        )) is None by {
            assert(order[order.drop_last().index_of(frn)] == frn);
        }
        lemma_no_rows(rule, v, order.drop_last());
    }
}

/// What is left of a list of different numbers after one was taken out.
proof fn lemma_removed_has(list: Seq<u64>, i: int, x: u64)
    requires
        list.no_duplicates(),
        0 <= i < list.len(),
    ensures
        list.remove(i).contains(x) <==> list.contains(x) && x != list[i],
{
    let rest = list.remove(i);
    if rest.contains(x) {
        let j = rest.index_of(x);
        if j < i {
            assert(list[j] == x);
        } else {
            assert(list[j + 1] == x);
        }
    }
    if list.contains(x) && x != list[i] {
        let j = list.index_of(x);
        if j < i {
            assert(rest[j] == x);
        } else {
            assert(rest[j - 1] == x);
        }
    }
}

/// A list of different numbers stays one.
proof fn lemma_removed_unique(list: Seq<u64>, i: int)
    requires
        list.no_duplicates(),
        0 <= i < list.len(),
    ensures
        list.remove(i).no_duplicates(),
{
}

/// The rows without that of one record.
proof fn lemma_row_taken_out(rule: Rule, v: IndexView, order: Seq<u64>, i: int)
    requires
        0 <= i < order.len(),
        hit_of(rule, v, order[i]) is Some,
    ensures
        hits_in(rule, v, order).to_multiset() == hits_in(
            rule,
            v,
            order.remove(i),
        ).to_multiset().insert(hit_of(rule, v, order[i])->0),
    decreases order.len(),
{
    broadcast use vstd::seq_lib::group_to_multiset_ensures;

    let hit = hit_of(rule, v, order[i])->0;
    if i == order.len() - 1 {
        assert(order.remove(i) =~= order.drop_last());
    } else {
        lemma_row_taken_out(rule, v, order.drop_last(), i);
        assert(order.remove(i).drop_last() =~= order.drop_last().remove(i));
        assert(order.remove(i).last() == order.last());
        if let Some(other) = hit_of(rule, v, order.last()) {
            let short = hits_in(rule, v, order.drop_last().remove(i)).to_multiset();
            assert(short.insert(hit).insert(other) =~= short.insert(other).insert(hit));
        }
    }
}

/// A separator at the end of the root makes no difference.
pub proof fn law_trailing_separators_do_not_matter(root: Seq<char>, c: char)
    requires
        is_slash(c),
    ensures
        trimmed(root.push(c)) == trimmed(root),
        drive_in(root.push(c)) == drive_in(root),
{
    assert(root.push(c).drop_last() =~= root);
}

/// Roots that differ only in the case of letters are the same root.
pub proof fn law_case_of_the_root_does_not_matter(a: Seq<char>, b: Seq<char>)
    requires
        lowered(a) == lowered(b),
    ensures
        lowered(trimmed(a)) == lowered(trimmed(b)),
        drive_searched(a) == drive_searched(b),
    decreases a.len(),
{
    lemma_same_letters(a, b);
    if a.len() > 0 && is_slash(a.last()) {
        assert(lowered(a.drop_last()) =~= lowered(b.drop_last()));
        law_case_of_the_root_does_not_matter(a.drop_last(), b.drop_last());
    }
}

/// The root of a drive holds everything on it: what follows it in a path is the rest
/// of the path.
pub proof fn law_drive_root_holds_everything(v: IndexView, frn: u64)
    requires
        path_of(v, frn) is Some,
    ensures
        relative(path_of(v, frn)->0, lowered(trimmed(drive_root(v.drive)))) == Some(
            path_of(v, frn)->0.skip(3),
        ),
{
    let root = drive_root(v.drive);
    let full = path_of(v, frn)->0;
    assert(root.drop_last() =~= seq![upper(v.drive), ':']);
    assert(trimmed(root) == root.drop_last()) by {
        reveal_with_fuel(trimmed, 2);
    }
    assert(full.take(2) =~= root.drop_last());
    assert(full[2] == root[2]);
}

/// More records yield no fewer rows.
proof fn lemma_rows_grow(rule: Rule, v: IndexView, order: Seq<u64>, i: int, j: int)
    requires
        0 <= i <= j <= order.len(),
    ensures
        hits_in(rule, v, order.take(i)).len() <= hits_in(rule, v, order.take(j)).len(),
    decreases j - i,
{
    if i < j {
        lemma_rows_grow(rule, v, order, i, j - 1);
        assert(order.take(j).drop_last() =~= order.take(j - 1));
    }
}

/// A search along a given order ends where the first one did: it yields the same rows,
/// looks at as many records, and is cut off or not as that was.
pub proof fn law_order_determines_the_answer(
    rule: Rule,
    v: IndexView,
    order: Seq<u64>,
    max: usize,
    one: Found,
    other: Found,
)
    requires
        is_search(rule, v, order, max, one),
        is_search(rule, v, order, max, other),
    ensures
        hit_views(one.hits@) == hit_views(other.hits@),
        one.scanned == other.scanned,
        one.truncated == other.truncated,
{
    lemma_ends_no_later(rule, v, order, max, one, other);
    lemma_ends_no_later(rule, v, order, max, other, one);
}

/// A search along a given order ends no later than another.
proof fn lemma_ends_no_later(
    rule: Rule,
    v: IndexView,
    order: Seq<u64>,
    max: usize,
    one: Found,
    other: Found,
)
    requires
        is_search(rule, v, order, max, one),
        is_search(rule, v, order, max, other),
    ensures
        one.scanned <= other.scanned,
{
    if one.scanned > other.scanned {
        lemma_rows_grow(rule, v, order, other.scanned as int, one.scanned - 1);
        lemma_rows_grow(rule, v, order, other.scanned as int, one.scanned as int);
    }
}

/// A query has one answer on an index that is not changed in between: asking again finds
/// the same rows in the same order.
pub proof fn law_answers_are_determined(
    rule: Rule,
    v: IndexView,
    scan: Seq<u64>,
    max: usize,
    one: Found,
    other: Found,
)
    requires
        is_answer(rule, v, scan, max, one),
        is_answer(rule, v, scan, max, other),
    ensures
        hit_views(one.hits@) == hit_views(other.hits@),
        one.scanned == other.scanned,
        one.truncated == other.truncated,
{
    law_order_determines_the_answer(rule, v, order_of(rule, v, scan), max, one, other);
}

/// The rows of fewer records are the first ones of more.
proof fn lemma_rows_begin(rule: Rule, v: IndexView, order: Seq<u64>, i: int, j: int)
    requires
        0 <= i <= j <= order.len(),
    ensures
        hits_in(rule, v, order.take(i)).is_prefix_of(hits_in(rule, v, order.take(j))),
    decreases j - i,
{
    let fewer = hits_in(rule, v, order.take(i));
    let more = hits_in(rule, v, order.take(j));
    if i < j {
        lemma_rows_begin(rule, v, order, i, j - 1);
        assert(order.take(j).drop_last() =~= order.take(j - 1));
        let before = hits_in(rule, v, order.take(j - 1));
        assert(before.is_prefix_of(more)) by {
            assert(before =~= more.take(before.len() as int));
        }
        assert(fewer =~= more.subrange(0, fewer.len() as int));
    } else {
        assert(fewer =~= more.subrange(0, fewer.len() as int));
    }
}

/// A smaller cap only drops rows: on an index that is not changed in between, the answer
/// is made of the first rows of the answer under a larger cap.
pub proof fn law_smaller_cap_only_drops_rows(
    rule: Rule,
    v: IndexView,
    scan: Seq<u64>,
    less: usize,
    more: usize,
    short: Found,
    long: Found,
)
    requires
        less <= more,
        is_answer(rule, v, scan, less, short),
        is_answer(rule, v, scan, more, long),
    ensures
        short.hits@.len() == (if less <= long.hits@.len() {
            less as nat
        } else {
            long.hits@.len()
        }),
        hit_views(short.hits@).is_prefix_of(hit_views(long.hits@)),
{
    let order = order_of(rule, v, scan);
    let a = hit_views(short.hits@);
    let b = hit_views(long.hits@);
    assert(a.len() == short.hits@.len() && b.len() == long.hits@.len());
    if less == 0 {
        assert(a =~= b.subrange(0, 0));
    } else if short.scanned <= long.scanned {
        lemma_rows_begin(rule, v, order, short.scanned as int, long.scanned as int);
        lemma_ends_with_enough(rule, v, order, less, short);
        lemma_ends_with_enough(rule, v, order, more, long);
    } else {
        lemma_rows_grow(rule, v, order, long.scanned as int, short.scanned - 1);
        lemma_rows_begin(rule, v, order, long.scanned as int, short.scanned as int);
        lemma_ends_with_enough(rule, v, order, less, short);
        lemma_ends_with_enough(rule, v, order, more, long);
        assert(a =~= b);
    }
}

/// A search ends with the row that makes enough, not later.
proof fn lemma_ends_with_enough(
    rule: Rule,
    v: IndexView,
    order: Seq<u64>,
    max: usize,
    found: Found,
)
    requires
        is_search(rule, v, order, max, found),
    ensures
        hits_in(rule, v, order.take(found.scanned as int)).len() <= enough(max),
{
    if found.truncated {
        assert(order.take(found.scanned as int).drop_last() =~= order.take(found.scanned - 1));
    }
}

/// `b` is the root `a` with letters in another case and separators added at its end.
pub open spec fn same_root(a: Seq<char>, b: Seq<char>) -> bool {
    &&& a.len() <= b.len()
    &&& lowered(b.take(a.len() as int)) == lowered(a)
    &&& forall|i: int| a.len() <= i < b.len() ==> is_slash(#[trigger] b[i])
}

/// Two spellings of a root are the same root.
pub proof fn law_spelling_of_the_root_does_not_matter(a: Seq<char>, b: Seq<char>)
    requires
        same_root(a, b),
    ensures
        lowered(trimmed(a)) == lowered(trimmed(b)),
        drive_searched(a) == drive_searched(b),
    decreases b.len(),
{
    if a.len() < b.len() {
        let c = b.last();
        let shorter = b.drop_last();
        assert(shorter.push(c) =~= b);
        law_trailing_separators_do_not_matter(shorter, c);
        assert(shorter.take(a.len() as int) =~= b.take(a.len() as int));
        law_spelling_of_the_root_does_not_matter(a, shorter);
    } else {
        assert(b.take(a.len() as int) =~= b);
        law_case_of_the_root_does_not_matter(a, b);
    }
}

/// Two spellings of a character lead to the same place.
proof fn lemma_same_move(place: Place, a: char, b: char)
    requires
        lower(a) == lower(b),
    ensures
        moved(place, a) == moved(place, b),
        a == '\\' <==> b == '\\',
        a == '-' <==> b == '-',
        a == '{' <==> b == '{',
        a == '}' <==> b == '}',
{
}

/// The same characters of two spellings of a pattern stand in classes.
proof fn lemma_same_places(a: Seq<char>, b: Seq<char>, i: int)
    requires
        lowered(a) == lowered(b),
        0 <= i <= a.len(),
    ensures
        place_after(a.take(i)) == place_after(b.take(i)),
    decreases i,
{
    lemma_same_letters(a, b);
    if i > 0 {
        lemma_same_places(a, b, i - 1);
        assert(a.take(i).drop_last() =~= a.take(i - 1));
        assert(b.take(i).drop_last() =~= b.take(i - 1));
        assert(lower(a[i - 1]) == lower(b[i - 1]));
        lemma_same_move(place_after(a.take(i - 1)), a[i - 1], b[i - 1]);
    }
}

/// Two spellings of a pattern are such with slashes for backslashes too.
proof fn lemma_respelt_with_slashes(a: Seq<char>, b: Seq<char>)
    requires
        respelt(a, b),
    ensures
        respelt(with_slashes(a), with_slashes(b)),
{
    let x = with_slashes(a);
    let y = with_slashes(b);
    lemma_same_letters(a, b);
    assert forall|i: int| 0 <= i < a.len() implies lower(#[trigger] x[i]) == lower(y[i]) by {
        lemma_same_places(a, b, i);
        assert(lower(a[i]) == lower(b[i]));
        lemma_same_move(Place::Outside, a[i], b[i]);
        assert(separates(a, i) == separates(b, i));
    }
    assert(lowered(x) =~= lowered(y));
    assert forall|i: int| #[trigger] makes_range(x, i) implies {
        ||| x[i - 1] == y[i - 1] && x[i + 1] == y[i + 1]
        ||| same_case(x[i - 1], x[i + 1]) && same_case(y[i - 1], y[i + 1])
    } by {
        lemma_place_with_slashes(a, i);
        assert(makes_range(a, i));
        assert(a.take(i).drop_last() =~= a.take(i - 1));
        assert(a.take(i + 1).drop_last() =~= a.take(i));
        assert(!separates(a, i - 1) && !separates(a, i + 1));
        lemma_same_places(a, b, i - 1);
        lemma_same_places(a, b, i + 1);
        assert(!separates(b, i - 1) && !separates(b, i + 1));
    }
}

/// Two spellings of a pattern are nested equally deep, and so are they with slashes for
/// backslashes.
proof fn lemma_same_depth(a: Seq<char>, b: Seq<char>, i: int)
    requires
        lowered(a) == lowered(b),
        0 <= i <= a.len(),
    ensures
        depth_after(a.take(i)) == depth_after(b.take(i)),
    decreases i,
{
    lemma_same_letters(a, b);
    if i > 0 {
        lemma_same_depth(a, b, i - 1);
        lemma_same_places(a, b, i - 1);
        assert(a.take(i).drop_last() =~= a.take(i - 1));
        assert(b.take(i).drop_last() =~= b.take(i - 1));
        assert(lower(a[i - 1]) == lower(b[i - 1]));
        lemma_same_move(Place::Outside, a[i - 1], b[i - 1]);
    }
}

/// Two spellings of a pattern are both too deep, or none is.
proof fn lemma_respelt_depth(a: Seq<char>, b: Seq<char>)
    requires
        lowered(a) == lowered(b),
    ensures
        is_shallow(a) == is_shallow(b),
{
    lemma_same_letters(a, b);
    assert forall|i: int| 0 <= i <= a.len() implies depth_after(#[trigger] a.take(i))
        == depth_after(b.take(i)) by {
        lemma_same_depth(a, b, i);
    }
    assert forall|i: int| 0 <= i <= b.len() implies depth_after(#[trigger] b.take(i))
        == depth_after(a.take(i)) by {
        lemma_same_depth(a, b, i);
    }
}

/// Two spellings of a pattern fix the same extension.
proof fn lemma_respelt_ext(a: Seq<char>, b: Seq<char>)
    requires
        lowered(a) == lowered(b),
    ensures
        fixed_ext(a) == fixed_ext(b),
{
    lemma_respelt_tail(a, b);
    let x = tail_of(a);
    let y = tail_of(b);
    lemma_same_letters(x, y);
    lemma_same_dots(x, y);
    let dot = last_of(x, '.');
    lemma_last_of(x, '.');
    if 0 <= dot && dot + 1 < x.len() {
        assert(lowered(x.skip(dot + 1)) =~= lowered(x).skip(dot + 1));
        assert(lowered(y.skip(dot + 1)) =~= lowered(y).skip(dot + 1));
    }
}

/// Two spellings of a pattern end in the same characters, but for their case.
proof fn lemma_respelt_tail(a: Seq<char>, b: Seq<char>)
    requires
        lowered(a) == lowered(b),
    ensures
        lowered(tail_of(a)) == lowered(tail_of(b)),
    decreases a.len(),
{
    lemma_same_letters(a, b);
    if a.len() > 0 {
        assert(lower(a[a.len() - 1]) == lower(b[b.len() - 1]));
        lemma_same_kind(a.last(), b.last());
        assert(lowered(a.drop_last()) =~= lowered(a).drop_last());
        assert(lowered(b.drop_last()) =~= lowered(b).drop_last());
        lemma_respelt_tail(a.drop_last(), b.drop_last());
        if is_literal(a.last()) {
            assert(lowered(tail_of(a)) =~= lowered(tail_of(a.drop_last())).push(lower(a.last())));
            assert(lowered(tail_of(b)) =~= lowered(tail_of(b.drop_last())).push(lower(b.last())));
        }
    }
}

/// Two spellings of a character are literal or not together.
proof fn lemma_same_kind(a: char, b: char)
    requires
        lower(a) == lower(b),
    ensures
        is_literal(a) == is_literal(b),
{
}

/// Records yield the same rows under rules that ask the same.
proof fn lemma_same_rows(one: Rule, other: Rule, v: IndexView, order: Seq<u64>)
    requires
        one.prefix == other.prefix,
        one.spare_git == other.spare_git,
        one.ignore == other.ignore,
        forall|rel: Seq<char>| #[trigger]
            pattern_accepts(one, rel) == pattern_accepts(other, rel),
    ensures
        hits_in(one, v, order) == hits_in(other, v, order),
    decreases order.len(),
{
    if order.len() > 0 {
        lemma_same_rows(one, other, v, order.drop_last());
        assert(hit_of(one, v, order.last()) == hit_of(other, v, order.last())) by {
            if let Some(full) = path_of(v, order.last()) {
                if let Some(rel) = relative(full, one.prefix) {
                    assert(pattern_accepts(one, rel) == pattern_accepts(other, rel));
                }
            }
        }
    }
}

/// Of two spellings of a pattern both are refused, or none. What compiling the one came
/// to says as much.
pub proof fn law_refusals_do_not_depend_on_spelling(one: Seq<char>, other: Seq<char>)
    requires
        respelt(one, other),
        refused_in_any_case(one, pattern_error(one) is Some),
    ensures
        pattern_error(one) is None <==> pattern_error(other) is None,
{
    lemma_respelt_with_slashes(one, other);
    lemma_respelt_depth(with_slashes(one), with_slashes(other));
}

/// Patterns are case-insensitive, and so are roots, to which separators may be added: of
/// two spellings of a query either both are refused, or both have the same answer on an
/// index that is not changed in between. The bounds of a range are to be spelt alike, or to
/// be letters of one case; that `one` compiles and is sound is what compiling it yields.
pub proof fn law_spelling_does_not_matter(
    one: Query,
    other: Query,
    lines: Seq<String>,
    v: IndexView,
    scan: Seq<u64>,
    first: Found,
    second: Found,
)
    requires
        one.max_results == other.max_results,
        !one.respect_gitignore,
        !other.respect_gitignore,
        same_root(one.root@, other.root@),
        respelt(one.pattern@, other.pattern@),
        pattern_error(one.pattern@) is None,
        is_sound(rule_of(one, lines)),
        is_answer(rule_of(one, lines), v, scan, one.max_results, first),
        is_answer(rule_of(other, lines), v, scan, other.max_results, second),
    ensures
        pattern_error(other.pattern@) is None,
        drive_searched(one.root@) == drive_searched(other.root@),
        hit_views(first.hits@) == hit_views(second.hits@),
        first.scanned == second.scanned,
        first.truncated == second.truncated,
{
    let a = rule_of(one, lines);
    let b = rule_of(other, lines);
    law_spelling_of_the_root_does_not_matter(one.root@, other.root@);
    lemma_respelt_with_slashes(one.pattern@, other.pattern@);
    lemma_respelt_depth(a.pattern, b.pattern);
    lemma_respelt_ext(a.pattern, b.pattern);
    assert forall|rel: Seq<char>| #[trigger] pattern_accepts(a, rel) == pattern_accepts(b, rel) by {
        let path = replaced(rel, '\\', '/');
        assert(glob_accepts(b.pattern, true, LITERAL_SEPARATOR, path) == glob_accepts(
            a.pattern,
            true,
            LITERAL_SEPARATOR,
            path,
        ));
    }
    let order = order_of(a, v, scan);
    assert forall|i: int| 0 <= i <= order.len() implies #[trigger] hits_in(b, v, order.take(i))
        == hits_in(a, v, order.take(i)) by {
        lemma_same_rows(a, b, v, order.take(i));
    }
    assert(is_search(a, v, order, one.max_results, second)) by {
        assert(hits_in(b, v, order.take(second.scanned as int)) == hits_in(
            a,
            v,
            order.take(second.scanned as int),
        ));
        if second.scanned > 0 {
            assert(hits_in(b, v, order.take(second.scanned - 1)) == hits_in(
                a,
                v,
                order.take(second.scanned - 1),
            ));
        }
    }
    law_order_determines_the_answer(a, v, order, one.max_results, first, second);
}

} // verus!
