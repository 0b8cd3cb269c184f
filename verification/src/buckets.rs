//! Inverted indices: for each key, the file reference numbers filed under it, in the
//! order in which they were filed.

use vstd::hash_map::StringHashMap;
use vstd::prelude::*;

verus! {

/// `bucket` without any `frn`, the rest in order.
pub open spec fn without(bucket: Seq<u64>, frn: u64) -> Seq<u64> {
    bucket.filter(|x: u64| x != frn)
}

/// The index after `frn` was filed at the end of the bucket of `key`; `None` files
/// it nowhere.
pub open spec fn filed(
    m: Map<Seq<char>, Seq<u64>>,
    key: Option<Seq<char>>,
    frn: u64,
) -> Map<Seq<char>, Seq<u64>> {
    match key {
        Some(k) => m.insert(
            k,
            if m.contains_key(k) {
                m[k].push(frn)
            } else {
                seq![frn]
            },
        ),
        None => m,
    }
}

/// The index after every `frn` was taken out of the bucket of `key`, if there is
/// such a bucket.
pub open spec fn withdrawn(
    m: Map<Seq<char>, Seq<u64>>,
    key: Option<Seq<char>>,
    frn: u64,
) -> Map<Seq<char>, Seq<u64>> {
    match key {
        Some(k) => if m.contains_key(k) {
            m.insert(k, without(m[k], frn))
        } else {
            m
        },
        None => m,
    }
}

/// The bucket of `key`, empty if there is none.
pub open spec fn bucket(m: Map<Seq<char>, Seq<u64>>, key: Seq<char>) -> Seq<u64> {
    if m.contains_key(key) {
        m[key]
    } else {
        Seq::empty()
    }
}

/// No number stands in both lists, or twice in one.
pub open spec fn each_once(a: Seq<u64>, b: Seq<u64>) -> bool {
    &&& a.no_duplicates()
    &&& b.no_duplicates()
    &&& forall|x: u64| !(#[trigger] a.contains(x) && #[trigger] b.contains(x))
}

/// What is left of a bucket without one of its numbers.
pub proof fn lemma_without(list: Seq<u64>, frn: u64)
    ensures
        forall|x: u64| #[trigger] without(list, frn).contains(x) <==> list.contains(x) && x != frn,
        list.no_duplicates() ==> without(list, frn).no_duplicates(),
        !list.contains(frn) ==> without(list, frn) == list,
    decreases list.len(),
{
    reveal(Seq::filter);
    let kept = without(list, frn);
    if list.len() > 0 {
        let before = list.drop_last();
        let last = list.last();
        lemma_without(before, frn);
        assert(list == before.push(last));
        assert(kept == if last == frn {
            without(before, frn)
        } else {
            without(before, frn).push(last)
        });
        assert forall|x: u64| #[trigger] kept.contains(x) <==> list.contains(x) && x != frn by {
            lemma_push_has(before, last, x);
            lemma_push_has(without(before, frn), last, x);
        }
        if list.no_duplicates() {
            assert(before.no_duplicates());
            assert(!before.contains(last)) by {
                if before.contains(last) {
                    assert(list[before.index_of(last)] == list[list.len() - 1]);
                }
            }
            lemma_push_unique(without(before, frn), last);
        }
        if !list.contains(frn) {
            lemma_push_has(before, last, frn);
        }
    } else {
        assert(kept =~= list);
    }
}

/// What a list that grew by one holds.
pub proof fn lemma_push_has<A>(list: Seq<A>, last: A, x: A)
    ensures
        list.push(last).contains(x) <==> list.contains(x) || x == last,
{
    assert(list.push(last)[list.len() as int] == last);
    if list.contains(x) {
        assert(list.push(last)[list.index_of(x)] == x);
    }
}

/// A list of different things grows by a new one.
pub proof fn lemma_push_unique<A>(list: Seq<A>, last: A)
    requires
        list.no_duplicates(),
        !list.contains(last),
    ensures
        list.push(last).no_duplicates(),
{
    assert forall|i: int, j: int|
        0 <= i < list.len() + 1 && 0 <= j < list.len() + 1 && i != j implies list.push(last)[i]
        != list.push(last)[j] by {
        if i < list.len() {
            assert(list.contains(list[i]));
        }
        if j < list.len() {
            assert(list.contains(list[j]));
        }
    }
}

/// What two lists, one behind the other, hold.
pub proof fn lemma_both_has(a: Seq<u64>, b: Seq<u64>, x: u64)
    ensures
        (a + b).contains(x) <==> a.contains(x) || b.contains(x),
{
    if a.contains(x) {
        assert((a + b)[a.index_of(x)] == x);
    }
    if b.contains(x) {
        assert((a + b)[a.len() + b.index_of(x)] == x);
    }
    if (a + b).contains(x) {
        let i = (a + b).index_of(x);
        if i < a.len() {
            assert(a[i] == x);
        } else {
            assert(b[i - a.len()] == x);
        }
    }
}

/// Two lists with no number twice make one.
pub proof fn lemma_both_unique(a: Seq<u64>, b: Seq<u64>)
    requires
        each_once(a, b),
    ensures
        (a + b).no_duplicates(),
{
    let all = a + b;
    assert forall|i: int, j: int|
        0 <= i < all.len() && 0 <= j < all.len() && i != j implies all[i] != all[j] by {
        if i < a.len() {
            assert(a.contains(a[i]));
        } else {
            assert(b.contains(b[i - a.len()]));
        }
        if j < a.len() {
            assert(a.contains(a[j]));
        } else {
            assert(b.contains(b[j - a.len()]));
        }
    }
}

/// A number taken out of two lists and filed in the first stands in it once.
proof fn lemma_refiled_once(a: Seq<u64>, b: Seq<u64>, frn: u64)
    requires
        each_once(a, b),
    ensures
        each_once(without(a, frn).push(frn), without(b, frn)),
        each_once(without(a, frn), without(b, frn).push(frn)),
{
    lemma_without(a, frn);
    lemma_without(b, frn);
    lemma_push_unique(without(a, frn), frn);
    lemma_push_unique(without(b, frn), frn);
    assert forall|x: u64| !(#[trigger] without(a, frn).push(frn).contains(x)
        && #[trigger] without(b, frn).contains(x)) by {
        lemma_push_has(without(a, frn), frn, x);
        assert(!(a.contains(x) && b.contains(x)));
    }
    assert forall|x: u64| !(#[trigger] without(a, frn).contains(x) && #[trigger] without(
        b,
        frn,
    ).push(frn).contains(x)) by {
        lemma_push_has(without(b, frn), frn, x);
        assert(!(a.contains(x) && b.contains(x)));
    }
}

/// Buckets of file reference numbers by key.
pub struct Buckets {
    ids: StringHashMap<usize>,
    lists: Vec<Vec<u64>>,
}

impl View for Buckets {
    type V = Map<Seq<char>, Seq<u64>>;

    closed spec fn view(&self) -> Map<Seq<char>, Seq<u64>> {
        Map::new(
            |k: Seq<char>| self.ids@.contains_key(k),
            |k: Seq<char>| self.lists@[self.ids@[k] as int]@,
        )
    }
}

impl Buckets {
    /// Each key has a list of its own.
    #[verifier::type_invariant]
    spec fn wf(self) -> bool {
        &&& forall|k: Seq<char>| #[trigger]
            self.ids@.contains_key(k) ==> self.ids@[k] < self.lists@.len()
        &&& forall|k: Seq<char>, l: Seq<char>|
            #[trigger] self.ids@.contains_key(k) && #[trigger] self.ids@.contains_key(l) && k != l
                ==> self.ids@[k] != self.ids@[l]
    }

    /// No buckets.
    pub fn new() -> (b: Self)
        ensures
            b@ == Map::<Seq<char>, Seq<u64>>::empty(),
    {
        let b = Buckets { ids: StringHashMap::new(), lists: Vec::new() };
        assert(b@ =~= Map::<Seq<char>, Seq<u64>>::empty());
        b
    }

    /// The bucket of `key`.
    pub fn get(&self, key: &str) -> (bucket: Option<&Vec<u64>>)
        ensures
            bucket is Some <==> self@.contains_key(key@),
            bucket matches Some(b) ==> b@ == self@[key@],
    {
        proof {
            use_type_invariant(self);
        }
        match self.ids.get(key) {
            Some(id) => Some(&self.lists[*id]),
            None => None,
        }
    }

    /// Files `frn` at the end of the bucket of `key`.
    pub fn file(&mut self, key: &str, frn: u64)
        ensures
            final(self)@ == filed(old(self)@, Some(key@), frn),
    {
        let mut taken = Buckets::new();
        std::mem::swap(self, &mut taken);
        proof {
            use_type_invariant(&taken);
        }
        let Buckets { mut ids, mut lists } = taken;
        let known: Option<usize> = match ids.get(key) {
            Some(id) => Some(*id),
            None => None,
        };
        match known {
            Some(id) => {
                lists[id].push(frn);
            },
            None => {
                let mut list: Vec<u64> = Vec::new();
                list.push(frn);
                ids.insert(key.to_owned(), lists.len());
                lists.push(list);
            },
        }
        *self = Buckets { ids, lists };
        assert(self@ =~= filed(old(self)@, Some(key@), frn));
    }

    /// Takes every `frn` out of the bucket of `key`.
    pub fn withdraw(&mut self, key: &str, frn: u64)
        ensures
            final(self)@ == withdrawn(old(self)@, Some(key@), frn),
    {
        let mut taken = Buckets::new();
        std::mem::swap(self, &mut taken);
        proof {
            use_type_invariant(&taken);
        }
        let Buckets { ids, mut lists } = taken;
        let known: Option<usize> = match ids.get(key) {
            Some(id) => Some(*id),
            None => None,
        };
        if let Some(id) = known {
            let kept = keep_others(&lists[id], frn);
            lists[id] = kept;
        }
        *self = Buckets { ids, lists };
        assert(self@ =~= withdrawn(old(self)@, Some(key@), frn));
    }
}

/// The bucket without `frn`.
fn keep_others(bucket: &Vec<u64>, frn: u64) -> (kept: Vec<u64>)
    ensures
        kept@ == without(bucket@, frn),
{
    let mut kept: Vec<u64> = Vec::new();
    let mut i: usize = 0;
    proof {
        reveal(Seq::filter);
    }
    while i < bucket.len()
        invariant
            i <= bucket@.len(),
            kept@ == without(bucket@.take(i as int), frn),
        decreases bucket@.len() - i,
    {
        reveal(Seq::filter);
        assert(bucket@.take(i + 1).drop_last() == bucket@.take(i as int));
        if bucket[i] != frn {
            kept.push(bucket[i]);
        }
        i += 1;
    }
    assert(bucket@.take(i as int) == bucket@);
    kept
}

/// The names of a volume by what follows their last dot: files with an extension, and
/// dotfiles, which have none but which a glob such as `*.rs` matches too. Under each
/// key no number stands twice, be it as a file with an extension or as a dotfile.
pub struct Extensions {
    named: Buckets,
    dotted: Buckets,
}

/// The buckets of both kinds.
pub ghost struct ExtensionsView {
    pub named: Map<Seq<char>, Seq<u64>>,
    pub dotted: Map<Seq<char>, Seq<u64>>,
}

impl View for Extensions {
    type V = ExtensionsView;

    closed spec fn view(&self) -> ExtensionsView {
        ExtensionsView { named: self.named@, dotted: self.dotted@ }
    }
}

impl Extensions {
    /// Under each key, no number stands twice.
    #[verifier::type_invariant]
    spec fn wf(self) -> bool {
        forall|key: Seq<char>|
            each_once(#[trigger] bucket(self.named@, key), bucket(self.dotted@, key))
    }

    /// No buckets.
    pub fn new() -> (x: Self)
        ensures
            x@.named == Map::<Seq<char>, Seq<u64>>::empty(),
            x@.dotted == Map::<Seq<char>, Seq<u64>>::empty(),
    {
        Extensions { named: Buckets::new(), dotted: Buckets::new() }
    }

    /// The files with the extension `key`.
    pub fn get(&self, key: &str) -> (list: Option<&Vec<u64>>)
        ensures
            list is Some <==> self@.named.contains_key(key@),
            list matches Some(l) ==> l@ == self@.named[key@],
    {
        self.named.get(key)
    }

    /// The dotfiles named `key` behind the dot.
    pub fn dotfiles(&self, key: &str) -> (list: Option<&Vec<u64>>)
        ensures
            list is Some <==> self@.dotted.contains_key(key@),
            list matches Some(l) ==> l@ == self@.dotted[key@],
    {
        self.dotted.get(key)
    }

    /// All that is filed under `key`: the files with that extension, and then the
    /// dotfiles of that name.
    pub fn both(&self, key: &str) -> (list: Vec<u64>)
        ensures
            list@ == bucket(self@.named, key@) + bucket(self@.dotted, key@),
            list@.no_duplicates(),
    {
        let mut list: Vec<u64> = Vec::new();
        push_bucket(&mut list, self.named.get(key));
        push_bucket(&mut list, self.dotted.get(key));
        proof {
            use_type_invariant(self);
            assert(list@ =~= bucket(self@.named, key@) + bucket(self@.dotted, key@));
            assert(each_once(bucket(self.named@, key@), bucket(self.dotted@, key@)));
            lemma_both_unique(bucket(self.named@, key@), bucket(self.dotted@, key@));
        }
        list
    }

    /// Files `frn` as a file with the extension `key`. Where it stood under that key
    /// before, as a file or as a dotfile, it no longer does.
    pub fn file(&mut self, key: &str, frn: u64)
        ensures
            final(self)@ == (ExtensionsView {
                named: filed(withdrawn(old(self)@.named, Some(key@), frn), Some(key@), frn),
                dotted: withdrawn(old(self)@.dotted, Some(key@), frn),
            }),
    {
        let mut taken = Extensions::new();
        std::mem::swap(self, &mut taken);
        proof {
            use_type_invariant(&taken);
        }
        let Extensions { mut named, mut dotted } = taken;
        let ghost a = named@;
        let ghost b = dotted@;
        named.withdraw(key, frn);
        dotted.withdraw(key, frn);
        named.file(key, frn);
        proof {
            lemma_filed_once(a, b, key@, frn);
        }
        *self = Extensions { named, dotted };
    }

    /// Files `frn` as a dotfile named `key` behind the dot. Where it stood under that
    /// key before, as a file or as a dotfile, it no longer does.
    pub fn file_dotfile(&mut self, key: &str, frn: u64)
        ensures
            final(self)@ == (ExtensionsView {
                named: withdrawn(old(self)@.named, Some(key@), frn),
                dotted: filed(withdrawn(old(self)@.dotted, Some(key@), frn), Some(key@), frn),
            }),
    {
        let mut taken = Extensions::new();
        std::mem::swap(self, &mut taken);
        proof {
            use_type_invariant(&taken);
        }
        let Extensions { mut named, mut dotted } = taken;
        let ghost a = named@;
        let ghost b = dotted@;
        named.withdraw(key, frn);
        dotted.withdraw(key, frn);
        dotted.file(key, frn);
        proof {
            lemma_filed_once(a, b, key@, frn);
        }
        *self = Extensions { named, dotted };
    }

    /// Takes `frn` off the files with the extension `key`.
    pub fn withdraw(&mut self, key: &str, frn: u64)
        ensures
            final(self)@ == (ExtensionsView {
                named: withdrawn(old(self)@.named, Some(key@), frn),
                ..old(self)@
            }),
    {
        let mut taken = Extensions::new();
        std::mem::swap(self, &mut taken);
        proof {
            use_type_invariant(&taken);
        }
        let Extensions { mut named, dotted } = taken;
        let ghost a = named@;
        named.withdraw(key, frn);
        proof {
            lemma_one_gone(a, dotted@, key@, frn);
        }
        *self = Extensions { named, dotted };
    }

    /// Takes `frn` off the dotfiles named `key` behind the dot.
    pub fn withdraw_dotfile(&mut self, key: &str, frn: u64)
        ensures
            final(self)@ == (ExtensionsView {
                dotted: withdrawn(old(self)@.dotted, Some(key@), frn),
                ..old(self)@
            }),
    {
        let mut taken = Extensions::new();
        std::mem::swap(self, &mut taken);
        proof {
            use_type_invariant(&taken);
        }
        let Extensions { named, mut dotted } = taken;
        let ghost b = dotted@;
        dotted.withdraw(key, frn);
        proof {
            lemma_one_gone(named@, b, key@, frn);
        }
        *self = Extensions { named, dotted };
    }
}

/// A bucket after a number was withdrawn under some key.
pub proof fn lemma_withdrawn_bucket(
    m: Map<Seq<char>, Seq<u64>>,
    key: Option<Seq<char>>,
    frn: u64,
    k: Seq<char>,
)
    ensures
        bucket(withdrawn(m, key, frn), k) == (if key == Some(k) {
            without(bucket(m, k), frn)
        } else {
            bucket(m, k)
        }),
{
    lemma_without(Seq::empty(), frn);
}

/// A bucket after a number was filed under some key.
pub proof fn lemma_filed_bucket(
    m: Map<Seq<char>, Seq<u64>>,
    key: Option<Seq<char>>,
    frn: u64,
    k: Seq<char>,
)
    ensures
        bucket(filed(m, key, frn), k) == (if key == Some(k) {
            bucket(m, k).push(frn)
        } else {
            bucket(m, k)
        }),
{
    assert(Seq::<u64>::empty().push(frn) =~= seq![frn]);
}

/// What a bucket holds after a number was withdrawn under some key.
pub proof fn lemma_withdrawn_has(
    m: Map<Seq<char>, Seq<u64>>,
    key: Option<Seq<char>>,
    frn: u64,
    k: Seq<char>,
    x: u64,
)
    ensures
        bucket(withdrawn(m, key, frn), k).contains(x) <==> bucket(m, k).contains(x) && !(key
            == Some(k) && x == frn),
{
    lemma_withdrawn_bucket(m, key, frn, k);
    lemma_without(bucket(m, k), frn);
}

/// What a bucket holds after a number was filed under some key.
pub proof fn lemma_filed_has(
    m: Map<Seq<char>, Seq<u64>>,
    key: Option<Seq<char>>,
    frn: u64,
    k: Seq<char>,
    x: u64,
)
    ensures
        bucket(filed(m, key, frn), k).contains(x) <==> bucket(m, k).contains(x) || (key == Some(k)
            && x == frn),
{
    lemma_filed_bucket(m, key, frn, k);
    lemma_push_has(bucket(m, k), frn, x);
}

/// Filing anew leaves no number twice under a key.
pub proof fn lemma_filed_once(
    a: Map<Seq<char>, Seq<u64>>,
    b: Map<Seq<char>, Seq<u64>>,
    key: Seq<char>,
    frn: u64,
)
    requires
        forall|k: Seq<char>| each_once(#[trigger] bucket(a, k), bucket(b, k)),
    ensures
        forall|k: Seq<char>|
            each_once(
                #[trigger] bucket(filed(withdrawn(a, Some(key), frn), Some(key), frn), k),
                bucket(withdrawn(b, Some(key), frn), k),
            ),
        forall|k: Seq<char>|
            each_once(
                #[trigger] bucket(withdrawn(a, Some(key), frn), k),
                bucket(filed(withdrawn(b, Some(key), frn), Some(key), frn), k),
            ),
{
    assert forall|k: Seq<char>|
        each_once(
            #[trigger] bucket(filed(withdrawn(a, Some(key), frn), Some(key), frn), k),
            bucket(withdrawn(b, Some(key), frn), k),
        ) by {
        lemma_withdrawn_bucket(a, Some(key), frn, k);
        lemma_withdrawn_bucket(b, Some(key), frn, k);
        lemma_filed_bucket(withdrawn(a, Some(key), frn), Some(key), frn, k);
        assert(each_once(bucket(a, k), bucket(b, k)));
        lemma_refiled_once(bucket(a, k), bucket(b, k), frn);
    }
    assert forall|k: Seq<char>|
        each_once(
            #[trigger] bucket(withdrawn(a, Some(key), frn), k),
            bucket(filed(withdrawn(b, Some(key), frn), Some(key), frn), k),
        ) by {
        lemma_withdrawn_bucket(a, Some(key), frn, k);
        lemma_withdrawn_bucket(b, Some(key), frn, k);
        lemma_filed_bucket(withdrawn(b, Some(key), frn), Some(key), frn, k);
        assert(each_once(bucket(a, k), bucket(b, k)));
        lemma_refiled_once(bucket(a, k), bucket(b, k), frn);
    }
}

/// Withdrawing leaves no number twice under a key.
pub proof fn lemma_one_gone(
    a: Map<Seq<char>, Seq<u64>>,
    b: Map<Seq<char>, Seq<u64>>,
    key: Seq<char>,
    frn: u64,
)
    requires
        forall|k: Seq<char>| each_once(#[trigger] bucket(a, k), bucket(b, k)),
    ensures
        forall|k: Seq<char>|
            each_once(#[trigger] bucket(withdrawn(a, Some(key), frn), k), bucket(b, k)),
        forall|k: Seq<char>|
            each_once(#[trigger] bucket(a, k), bucket(withdrawn(b, Some(key), frn), k)),
{
    assert forall|k: Seq<char>|
        each_once(#[trigger] bucket(withdrawn(a, Some(key), frn), k), bucket(b, k)) by {
        lemma_withdrawn_bucket(a, Some(key), frn, k);
        lemma_without(bucket(a, k), frn);
        assert(each_once(bucket(a, k), bucket(b, k)));
    }
    assert forall|k: Seq<char>|
        each_once(#[trigger] bucket(a, k), bucket(withdrawn(b, Some(key), frn), k)) by {
        lemma_withdrawn_bucket(b, Some(key), frn, k);
        lemma_without(bucket(b, k), frn);
        assert(each_once(bucket(a, k), bucket(b, k)));
    }
}

/// Appends a bucket, if there is one.
fn push_bucket(list: &mut Vec<u64>, more: Option<&Vec<u64>>)
    ensures
        final(list)@ == old(list)@ + (match more {
            Some(frns) => frns@,
            None => Seq::empty(),
        }),
{
    if let Some(frns) = more {
        let mut i: usize = 0;
        while i < frns.len()
            invariant
                i <= frns@.len(),
                list@ == old(list)@ + frns@.take(i as int),
            decreases frns@.len() - i,
        {
            list.push(frns[i]);
            i += 1;
            assert(frns@.take(i as int) == frns@.take(i - 1).push(frns@[i - 1]));
        }
        assert(frns@.take(i as int) == frns@);
    }
}

} // verus!
