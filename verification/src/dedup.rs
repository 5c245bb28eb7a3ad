//! Deduplication.
//!
//! Two independent concerns share one canonical identity key, the source tag
//! plus the query-less URL.  Within one run, a batch is first put in a
//! deterministic order (a stable sort by name) and then stripped of every
//! listing whose key was already kept.  Across runs, a persistent seen-set
//! partitions a batch into new and already-seen listings, and absorbs the
//! key of every processed listing so that no key is ever reported twice.

use vstd::prelude::*;
use crate::listing::{key_of, DedupKey, dedup_key, key_eq, Listing, ListingModel, Source};
use crate::text::{lemma_lex_lt_asym, lemma_lex_lt_trans, lex_lt};

verus! {

/// `s` inserted into `sorted` before the first strictly greater name, so
/// that equal names keep their arrival order.
pub open spec fn insert_by_name(x: ListingModel, s: Seq<ListingModel>) -> Seq<ListingModel>
    decreases s.len(),
{
    if s.len() == 0 {
        seq![x]
    } else if lex_lt(x.name, s[0].name) {
        seq![x] + s
    } else {
        seq![s[0]] + insert_by_name(x, s.drop_first())
    }
}

/// Stable insertion sort by name: each listing in turn is inserted after
/// all listings whose names do not come strictly after it.
pub open spec fn sort_by_name(s: Seq<ListingModel>) -> Seq<ListingModel>
    decreases s.len(),
{
    if s.len() == 0 {
        Seq::empty()
    } else {
        insert_by_name(s.last(), sort_by_name(s.drop_last()))
    }
}

/// Some listing of `s` has identity key `k`.
pub open spec fn has_key(s: Seq<ListingModel>, k: (Source, Seq<char>)) -> bool {
    exists|i: int| 0 <= i < s.len() && key_of(#[trigger] s[i]) == k
}

/// First-occurrence dedup: a listing is kept exactly when no earlier
/// listing shares its key.
pub open spec fn dedup_by_key(s: Seq<ListingModel>) -> Seq<ListingModel>
    decreases s.len(),
{
    if s.len() == 0 {
        Seq::empty()
    } else if has_key(s.drop_last(), key_of(s.last())) {
        dedup_by_key(s.drop_last())
    } else {
        dedup_by_key(s.drop_last()).push(s.last())
    }
}

/// What within-run deduplication yields: the batch sorted stably by name,
/// then stripped of repeated keys, keeping first occurrences.
pub open spec fn dedup_within_run(s: Seq<ListingModel>) -> Seq<ListingModel> {
    dedup_by_key(sort_by_name(s))
}

/// `s` is in within-run order: no name comes strictly before an earlier one.
pub open spec fn sorted_by_name(s: Seq<ListingModel>) -> bool {
    forall|i: int, j: int|
        0 <= i < j < s.len() ==> !lex_lt((#[trigger] s[j]).name, (#[trigger] s[i]).name)
}

/// Every element of an insertion is the inserted listing or an original one.
proof fn lemma_insert_by_name_elements(x: ListingModel, s: Seq<ListingModel>)
    ensures
        insert_by_name(x, s).len() == s.len() + 1,
        forall|q: int|
            0 <= q < insert_by_name(x, s).len() ==> (#[trigger] insert_by_name(x, s)[q]) == x
                || s.contains(insert_by_name(x, s)[q]),
    decreases s.len(),
{
    if s.len() == 0 {
    } else if lex_lt(x.name, s[0].name) {
        assert forall|q: int| 0 <= q < (seq![x] + s).len() implies (#[trigger] (seq![x] + s)[q])
            == x || s.contains((seq![x] + s)[q]) by {
            if q > 0 {
                assert((seq![x] + s)[q] == s[q - 1]);
            }
        }
    } else {
        lemma_insert_by_name_elements(x, s.drop_first());
        let t = seq![s[0]] + insert_by_name(x, s.drop_first());
        assert forall|q: int| 0 <= q < t.len() implies (#[trigger] t[q]) == x || s.contains(
            t[q],
        ) by {
            if q > 0 {
                let e = insert_by_name(x, s.drop_first())[q - 1];
                assert(t[q] == e);
                if e != x {
                    let w = choose|w: int| 0 <= w < s.drop_first().len() && s.drop_first()[w] == e;
                    assert(s[w + 1] == e);
                }
            }
        }
    }
}

/// Inserting into an ordered sequence keeps it ordered.
proof fn lemma_insert_by_name_sorted(x: ListingModel, s: Seq<ListingModel>)
    requires
        sorted_by_name(s),
    ensures
        sorted_by_name(insert_by_name(x, s)),
    decreases s.len(),
{
    if s.len() == 0 {
    } else if lex_lt(x.name, s[0].name) {
        let t = seq![x] + s;
        assert forall|i: int, j: int| 0 <= i < j < t.len() implies !lex_lt(
            (#[trigger] t[j]).name,
            (#[trigger] t[i]).name,
        ) by {
            if i > 0 {
                assert(t[i] == s[i - 1] && t[j] == s[j - 1]);
            } else {
                assert(t[j] == s[j - 1]);
                if lex_lt(s[j - 1].name, x.name) {
                    lemma_lex_lt_trans(s[j - 1].name, x.name, s[0].name);
                    if j > 1 {
                        assert(!lex_lt(s[j - 1].name, s[0].name));
                    } else {
                        lemma_lex_lt_asym(s[0].name, s[0].name);
                    }
                }
            }
        }
    } else {
        assert forall|i: int, j: int| 0 <= i < j < s.drop_first().len() implies !lex_lt(
            (#[trigger] s.drop_first()[j]).name,
            (#[trigger] s.drop_first()[i]).name,
        ) by {
            assert(s.drop_first()[i] == s[i + 1] && s.drop_first()[j] == s[j + 1]);
        }
        lemma_insert_by_name_sorted(x, s.drop_first());
        lemma_insert_by_name_elements(x, s.drop_first());
        let ins = insert_by_name(x, s.drop_first());
        let t = seq![s[0]] + ins;
        assert forall|i: int, j: int| 0 <= i < j < t.len() implies !lex_lt(
            (#[trigger] t[j]).name,
            (#[trigger] t[i]).name,
        ) by {
            if i > 0 {
                assert(t[i] == ins[i - 1] && t[j] == ins[j - 1]);
            } else {
                let e = ins[j - 1];
                assert(t[j] == e);
                assert(e == x || s.drop_first().contains(e));
                if e != x {
                    let w = choose|w: int| 0 <= w < s.drop_first().len() && s.drop_first()[w] == e;
                    assert(s.drop_first()[w] == s[w + 1]);
                    assert(!lex_lt(s[w + 1].name, s[0].name));
                }
            }
        }
    }
}

/// The within-run order, as a law: the sort leaves the batch ordered by
/// name, so the dedup pass that follows sees a deterministic order.
pub proof fn lemma_sort_by_name_sorted(s: Seq<ListingModel>)
    ensures
        sorted_by_name(sort_by_name(s)),
    decreases s.len(),
{
    if s.len() > 0 {
        lemma_sort_by_name_sorted(s.drop_last());
        lemma_insert_by_name_sorted(s.last(), sort_by_name(s.drop_last()));
    }
}

/// Every listing kept by first-occurrence dedup has its key in the batch.
proof fn lemma_dedup_keys_from_batch(s: Seq<ListingModel>)
    ensures
        forall|q: int|
            0 <= q < dedup_by_key(s).len() ==> has_key(s, key_of(#[trigger] dedup_by_key(s)[q])),
    decreases s.len(),
{
    if s.len() > 0 {
        lemma_dedup_keys_from_batch(s.drop_last());
        let d0 = dedup_by_key(s.drop_last());
        let d = dedup_by_key(s);
        assert forall|q: int| 0 <= q < d.len() implies has_key(s, key_of(#[trigger] d[q])) by {
            if q < d0.len() {
                assert(has_key(s.drop_last(), key_of(d0[q])));
                let p = choose|p: int|
                    0 <= p < s.drop_last().len() && key_of(#[trigger] s.drop_last()[p]) == key_of(
                        d0[q],
                    );
                assert(key_of(s[p]) == key_of(d[q]));
            } else {
                assert(d[q] == s.last());
                assert(key_of(s[s.len() - 1]) == key_of(d[q]));
            }
        }
    }
}

/// The within-run identity invariant, as a law: no two listings retained by
/// within-run deduplication share a dedup key, whatever the batch.
pub proof fn lemma_dedup_keys_unique(s: Seq<ListingModel>)
    ensures
        forall|i: int, j: int|
            0 <= i < j < dedup_by_key(s).len() ==> key_of(#[trigger] dedup_by_key(s)[i]) != key_of(
                #[trigger] dedup_by_key(s)[j],
            ),
    decreases s.len(),
{
    if s.len() > 0 {
        lemma_dedup_keys_unique(s.drop_last());
        lemma_dedup_keys_from_batch(s.drop_last());
        let d0 = dedup_by_key(s.drop_last());
        let d = dedup_by_key(s);
        assert forall|i: int, j: int|
            0 <= i < j < d.len() implies key_of(#[trigger] d[i]) != key_of(#[trigger] d[j]) by {
            if j < d0.len() {
                assert(d[i] == d0[i] && d[j] == d0[j]);
            } else if j == d0.len() && d.len() == d0.len() + 1 {
                assert(d[i] == d0[i]);
                assert(d[j] == s.last());
                assert(!has_key(s.drop_last(), key_of(s.last())));
                assert(has_key(s.drop_last(), key_of(d0[i])));
            }
        }
    }
}

/// Inserting at the position found by a first-greater scan is the
/// specified insertion.
proof fn lemma_insert_by_name_at(x: ListingModel, s: Seq<ListingModel>, j: int)
    requires
        0 <= j <= s.len(),
        forall|k: int| 0 <= k < j ==> !lex_lt(x.name, #[trigger] s[k].name),
        j == s.len() || lex_lt(x.name, s[j].name),
    ensures
        insert_by_name(x, s) == s.insert(j, x),
    decreases j,
{
    if j == 0 {
        if s.len() == 0 {
            assert(insert_by_name(x, s) =~= s.insert(0, x));
        } else {
            assert(seq![x] + s =~= s.insert(0, x));
        }
    } else {
        lemma_insert_by_name_at(x, s.drop_first(), j - 1);
        assert(seq![s[0]] + s.drop_first().insert(j - 1, x) =~= s.insert(j, x));
    }
}

/// Puts a batch into the deterministic within-run order: a stable sort by
/// name, by code point.
pub fn sort_listings_by_name(v: &Vec<Listing>) -> (r: Vec<Listing>)
    ensures
        r.deep_view() == sort_by_name(v.deep_view()),
{
    let n = v.len();
    let mut r: Vec<Listing> = Vec::new();
    let mut i: usize = 0;
    while i < n
        invariant
            n == v@.len(),
            i <= n,
            r.deep_view() == sort_by_name(v.deep_view().take(i as int)),
            r@.len() <= i,
        decreases n - i,
    {
        let x = v[i].clone();
        let rl = r.len();
        let mut j: usize = 0;
        while j < rl && !crate::text::str_lt(x.name.as_str(), r[j].name.as_str())
            invariant
                rl == r@.len(),
                j <= rl,
                forall|k: int|
                    0 <= k < j ==> !lex_lt(x@.name, #[trigger] r.deep_view()[k].name),
            decreases rl - j,
        {
            j = j + 1;
        }
        proof {
            lemma_insert_by_name_at(x@, r.deep_view(), j as int);
            assert(v.deep_view().take(i + 1).drop_last() =~= v.deep_view().take(i as int));
            assert(v.deep_view().take(i + 1).last() == v.deep_view()[i as int]);
        }
        r.insert(j, x);
        proof {
            assert(r.deep_view() =~= sort_by_name(v.deep_view().take(i + 1)));
        }
        i = i + 1;
    }
    proof {
        assert(v.deep_view().take(n as int) =~= v.deep_view());
    }
    r
}

/// Whether `k` denotes the same identity as some key in `keys`.
pub fn contains_key_exec(keys: &Vec<DedupKey>, k: &DedupKey) -> (r: bool)
    ensures
        r == exists|q: int| 0 <= q < keys@.len() && (#[trigger] keys@[q])@ == k@,
{
    let n = keys.len();
    let mut i: usize = 0;
    while i < n
        invariant
            n == keys@.len(),
            i <= n,
            forall|q: int| 0 <= q < i ==> (#[trigger] keys@[q])@ != k@,
        decreases n - i,
    {
        if key_eq(&keys[i], k) {
            return true;
        }
        i = i + 1;
    }
    false
}

/// Within-run deduplication: sorts the batch stably by name, then keeps the
/// first listing of each identity key and drops the rest.
pub fn deduplicate_products(products: &Vec<Listing>) -> (r: Vec<Listing>)
    ensures
        r.deep_view() == dedup_within_run(products.deep_view()),
{
    let sorted = sort_listings_by_name(products);
    let ghost sdv = sorted.deep_view();
    let n = sorted.len();
    let mut out: Vec<Listing> = Vec::new();
    let mut seen_keys: Vec<DedupKey> = Vec::new();
    let mut i: usize = 0;
    while i < n
        invariant
            n == sorted@.len(),
            sdv == sorted.deep_view(),
            i <= n,
            seen_keys@.len() == i,
            forall|q: int| 0 <= q < i ==> (#[trigger] seen_keys@[q])@ == key_of(sdv[q]),
            out.deep_view() == dedup_by_key(sdv.take(i as int)),
        decreases n - i,
    {
        let k = dedup_key(&sorted[i]);
        let dup = contains_key_exec(&seen_keys, &k);
        proof {
            assert(sdv.take(i + 1).drop_last() =~= sdv.take(i as int));
            assert(sdv.take(i + 1).last() == sdv[i as int]);
            if dup {
                let q = choose|q: int|
                    0 <= q < seen_keys@.len() && (#[trigger] seen_keys@[q])@ == k@;
                assert(key_of(sdv.take(i as int)[q]) == key_of(sdv[i as int]));
                assert(has_key(sdv.take(i as int), key_of(sdv[i as int])));
            } else {
                assert forall|q: int|
                    0 <= q < i implies key_of(#[trigger] sdv.take(i as int)[q]) != key_of(
                    sdv[i as int],
                ) by {
                    assert(seen_keys@[q]@ == key_of(sdv[q]));
                }
                assert(!has_key(sdv.take(i as int), key_of(sdv[i as int])));
            }
        }
        if !dup {
            out.push(sorted[i].clone());
        }
        seen_keys.push(k);
        proof {
            assert(out.deep_view() =~= dedup_by_key(sdv.take(i + 1)));
        }
        i = i + 1;
    }
    proof {
        assert(sdv.take(n as int) =~= sdv);
    }
    out
}

/// The set of identity keys occurring in a batch.
pub open spec fn batch_keys(s: Seq<ListingModel>) -> Set<(Source, Seq<char>)> {
    Set::new(
        |k: (Source, Seq<char>)|
            exists|i: int| 0 <= i < s.len() && key_of(#[trigger] s[i]) == k,
    )
}

/// What the cross-run novelty filter yields: the listings whose key is
/// absent both from the seen-set and from every earlier listing of the
/// batch, in batch order.
pub open spec fn filter_new_spec(
    s: Seq<ListingModel>,
    seen: Set<(Source, Seq<char>)>,
) -> Seq<ListingModel>
    decreases s.len(),
{
    if s.len() == 0 {
        Seq::empty()
    } else if seen.contains(key_of(s[0])) {
        filter_new_spec(s.drop_first(), seen)
    } else {
        seq![s[0]] + filter_new_spec(s.drop_first(), seen.insert(key_of(s[0])))
    }
}

/// The durable record of identities already reported across runs.  It only
/// ever grows; its mathematical value is the set of keys it holds.
pub struct SeenSet {
    pub keys: Vec<DedupKey>,
}

impl View for SeenSet {
    type V = Set<(Source, Seq<char>)>;

    open spec fn view(&self) -> Set<(Source, Seq<char>)> {
        Set::new(
            |k: (Source, Seq<char>)|
                exists|q: int| 0 <= q < self.keys@.len() && (#[trigger] self.keys@[q])@ == k,
        )
    }
}

impl SeenSet {
    /// An empty seen-set, the fallback when no persisted state exists.
    pub fn new() -> (s: SeenSet)
        ensures
            s@ == Set::<(Source, Seq<char>)>::empty(),
    {
        let s = SeenSet { keys: Vec::new() };
        proof {
            assert(s@ =~= Set::<(Source, Seq<char>)>::empty());
        }
        s
    }

    /// How many keys are tracked.
    pub fn len(&self) -> (n: usize)
        ensures
            n == self.keys@.len(),
    {
        self.keys.len()
    }

    /// Whether `k` is already recorded.
    pub fn contains(&self, k: &DedupKey) -> (r: bool)
        ensures
            r == self@.contains(k@),
    {
        contains_key_exec(&self.keys, k)
    }
}

/// One more listing adds exactly its key to the keys of a batch prefix.
proof fn lemma_batch_keys_take_step(s: Seq<ListingModel>, i: int)
    requires
        0 <= i < s.len(),
    ensures
        batch_keys(s.take(i + 1)) =~= batch_keys(s.take(i)).insert(key_of(s[i])),
{
    let pre = s.take(i);
    let ext = s.take(i + 1);
    assert forall|k: (Source, Seq<char>)| batch_keys(ext).contains(k) implies batch_keys(
        pre,
    ).insert(key_of(s[i])).contains(k) by {
        let j = choose|j: int| 0 <= j < ext.len() && key_of(#[trigger] ext[j]) == k;
        if j < i {
            assert(key_of(pre[j]) == k);
        }
    }
    assert forall|k: (Source, Seq<char>)|
        batch_keys(pre).insert(key_of(s[i])).contains(k) implies batch_keys(ext).contains(
        k,
    ) by {
        if k == key_of(s[i]) {
            assert(key_of(ext[i]) == k);
        } else {
            let j = choose|j: int| 0 <= j < pre.len() && key_of(#[trigger] pre[j]) == k;
            assert(key_of(ext[j]) == k);
        }
    }
}

/// Pushing a key onto the seen-set's store inserts it into its value.
proof fn lemma_seen_view_push(pre: SeenSet, post: SeenSet, k: DedupKey)
    requires
        post.keys@ == pre.keys@.push(k),
    ensures
        post@ =~= pre@.insert(k@),
{
    assert forall|x: (Source, Seq<char>)| post@.contains(x) implies pre@.insert(k@).contains(
        x,
    ) by {
        let q = choose|q: int| 0 <= q < post.keys@.len() && (#[trigger] post.keys@[q])@ == x;
        if q < pre.keys@.len() {
            assert(pre.keys@[q]@ == x);
        }
    }
    assert forall|x: (Source, Seq<char>)| pre@.insert(k@).contains(x) implies post@.contains(
        x,
    ) by {
        if x == k@ {
            assert(post.keys@[pre.keys@.len() as int]@ == x);
        } else {
            let q = choose|q: int| 0 <= q < pre.keys@.len() && (#[trigger] pre.keys@[q])@ == x;
            assert(post.keys@[q]@ == x);
        }
    }
}

/// The cross-run novelty filter: returns the listings not yet seen, in
/// batch order, and absorbs the key of every processed listing into the
/// seen-set.
pub fn filter_new_products(products: &Vec<Listing>, seen: &mut SeenSet) -> (new: Vec<Listing>)
    ensures
        new.deep_view() == filter_new_spec(products.deep_view(), old(seen)@),
        final(seen)@ == old(seen)@.union(batch_keys(products.deep_view())),
{
    let ghost pdv = products.deep_view();
    let ghost seen0 = seen@;
    let n = products.len();
    let mut out: Vec<Listing> = Vec::new();
    let mut i: usize = 0;
    proof {
        assert(batch_keys(pdv.take(0)) =~= Set::<(Source, Seq<char>)>::empty());
        assert(seen0.union(batch_keys(pdv.take(0))) =~= seen0);
        assert(pdv.skip(0) =~= pdv);
        assert(out.deep_view() + filter_new_spec(pdv, seen0) =~= filter_new_spec(pdv, seen0));
    }
    while i < n
        invariant
            n == products@.len(),
            pdv == products.deep_view(),
            i <= n,
            seen@ == seen0.union(batch_keys(pdv.take(i as int))),
            filter_new_spec(pdv, seen0) == out.deep_view() + filter_new_spec(
                pdv.skip(i as int),
                seen@,
            ),
        decreases n - i,
    {
        let ghost seen_i = seen@;
        let ghost out_i = out.deep_view();
        let k = dedup_key(&products[i]);
        let is_seen = seen.contains(&k);
        proof {
            assert(pdv.skip(i as int).drop_first() =~= pdv.skip(i + 1));
            assert(pdv.skip(i as int)[0] == pdv[i as int]);
            lemma_batch_keys_take_step(pdv, i as int);
        }
        if !is_seen {
            out.push(products[i].clone());
            let ghost pre_seen = *seen;
            let ghost kg = k;
            seen.keys.push(k);
            proof {
                lemma_seen_view_push(pre_seen, *seen, kg);
            }
        }
        proof {
            if !is_seen {
                assert(seen@ =~= seen_i.insert(key_of(pdv[i as int])));
                assert(seen@ =~= seen0.union(batch_keys(pdv.take(i + 1))));
                assert(filter_new_spec(pdv.skip(i as int), seen_i) == seq![pdv[i as int]]
                    + filter_new_spec(pdv.skip(i + 1), seen@));
                assert(out.deep_view() =~= out_i.push(pdv[i as int]));
                assert(out.deep_view() + filter_new_spec(pdv.skip(i + 1), seen@) =~= out_i
                    + filter_new_spec(pdv.skip(i as int), seen_i));
            } else {
                assert(seen_i.contains(key_of(pdv[i as int])));
                assert(seen@ =~= seen0.union(batch_keys(pdv.take(i + 1))));
                assert(filter_new_spec(pdv.skip(i as int), seen@) == filter_new_spec(
                    pdv.skip(i + 1),
                    seen@,
                ));
            }
        }
        i = i + 1;
    }
    proof {
        assert(pdv.skip(n as int) =~= Seq::<ListingModel>::empty());
        assert(out.deep_view() + Seq::<ListingModel>::empty() =~= out.deep_view());
        assert(pdv.take(n as int) =~= pdv);
    }
    out
}

/// When every key of the batch is already in the seen-set, the filter
/// yields nothing.
proof fn lemma_filter_new_all_seen(s: Seq<ListingModel>, seen: Set<(Source, Seq<char>)>)
    requires
        forall|i: int| 0 <= i < s.len() ==> seen.contains(key_of(#[trigger] s[i])),
    ensures
        filter_new_spec(s, seen) == Seq::<ListingModel>::empty(),
    decreases s.len(),
{
    if s.len() > 0 {
        assert(seen.contains(key_of(s[0])));
        lemma_filter_new_all_seen(s.drop_first(), seen);
    }
}

/// The novelty filter is idempotent: once a batch has been processed, so
/// that the seen-set holds every key of the batch, running the filter again
/// on the same batch yields an empty new set.
pub proof fn lemma_filter_new_idempotent(s: Seq<ListingModel>, seen: Set<(Source, Seq<char>)>)
    ensures
        filter_new_spec(s, seen.union(batch_keys(s))) == Seq::<ListingModel>::empty(),
{
    let seen1 = seen.union(batch_keys(s));
    assert forall|i: int| 0 <= i < s.len() implies seen1.contains(key_of(#[trigger] s[i])) by {
        assert(batch_keys(s).contains(key_of(s[i])));
    }
    lemma_filter_new_all_seen(s, seen1);
}

} // verus!
