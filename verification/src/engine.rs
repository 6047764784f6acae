//! The label/item index and the similarity ranking built on it.
//!
//! A [`Recommender`] keeps a bidirectional mapping between items
//! ("pages") and labels ("categories"): every label knows the items filed
//! under it and every item knows the labels it carries. A query — a
//! sequence of labels — is ranked against the index by scoring each
//! candidate item with an integer overlap coefficient and ordering the
//! candidates by score with the dual-array quicksort.

use vstd::prelude::*;
use vstd::pervasive::VecAdditionalExecFns;
use crate::sort::lemma_same_multiset_contains;
use crate::sort::pairs;
use crate::sort::quicksort;

verus! {

/// Queries longer than this are rejected up front so that the scaled
/// overlap score always fits in a `u64`.
pub const MAX_QUERY_LEN: usize = 0x1000_0000;

/// One association-list entry: a key together with the distinct values
/// filed under it.
pub struct Entry {
    pub key: String,
    pub vals: Vec<String>,
}

/// The number of query positions whose label occurs in the candidate
/// label sequence. A label appearing twice in the query is counted twice;
/// each single query position contributes at most one.
pub open spec fn shared_count(query: Seq<Seq<char>>, cand: Seq<Seq<char>>) -> int
    decreases query.len(),
{
    if query.len() == 0 {
        0
    } else {
        shared_count(query.drop_last(), cand) + if cand.contains(query.last()) {
            1int
        } else {
            0int
        }
    }
}

/// The integer overlap score of a query label sequence against a
/// candidate label sequence: `1000 * 2 * shared` divided (truncating) by
/// `|query| + |cand| - shared`, and `0` when that denominator is zero
/// (both sequences empty). The factor of two makes this a Dice-like
/// coefficient rather than a true Jaccard index; the formula is kept
/// exactly as the ranking semantics demand it.
pub open spec fn score_spec(query: Seq<Seq<char>>, cand: Seq<Seq<char>>) -> int {
    let s = shared_count(query, cand);
    let d = query.len() + cand.len() - s;
    if d == 0 {
        0
    } else {
        (1000 * (2 * s)) / d
    }
}

/// `shared_count` lies between 0 and the query length.
pub proof fn lemma_shared_count_bounds(query: Seq<Seq<char>>, cand: Seq<Seq<char>>)
    ensures
        0 <= shared_count(query, cand) <= query.len(),
    decreases query.len(),
{
    if query.len() > 0 {
        lemma_shared_count_bounds(query.drop_last(), cand);
    }
}

/// Whether `needle` occurs in `v`, compared by string contents.
fn contains_string(v: &Vec<String>, needle: &String) -> (found: bool)
    ensures
        found == v.deep_view().contains(needle@),
{
    let mut idx: usize = 0;
    while idx < v.len()
        invariant
            idx <= v.len(),
            forall|t: int| 0 <= t < idx ==> v.deep_view()[t] != needle@,
        decreases v.len() - idx,
    {
        if v[idx].eq(needle) {
            assert(v.deep_view()[idx as int] == needle@);
            return true;
        }
        idx += 1;
    }
    false
}

/// Computes [`score_spec`] of `query` against `cand`, comparing labels by
/// string contents.
pub fn similarity(query: &Vec<String>, cand: &Vec<String>) -> (score: u64)
    requires
        query@.len() <= MAX_QUERY_LEN,
    ensures
        score as int == score_spec(query.deep_view(), cand.deep_view()),
{
    let ghost q = query.deep_view();
    let ghost c = cand.deep_view();
    let mut shared: usize = 0;
    let mut idx: usize = 0;
    while idx < query.len()
        invariant
            idx <= query.len(),
            query@.len() <= MAX_QUERY_LEN,
            q == query.deep_view(),
            c == cand.deep_view(),
            shared == shared_count(q.take(idx as int), c),
            shared <= idx,
        decreases query.len() - idx,
    {
        let ghost prefix = q.take(idx as int);
        if contains_string(cand, &query[idx]) {
            shared += 1;
        }
        proof {
            assert(q.take(idx + 1).drop_last() =~= prefix);
            assert(q.take(idx + 1).last() == q[idx as int]);
            assert(q[idx as int] == query@[idx as int]@);
        }
        idx += 1;
    }
    proof {
        assert(q.take(query@.len() as int) =~= q);
        lemma_shared_count_bounds(q, c);
    }
    let a: u128 = query.len() as u128;
    let b: u128 = cand.len() as u128;
    let s: u128 = shared as u128;
    let d: u128 = a + b - s;
    if d == 0 {
        return 0;
    }
    let score128: u128 = (2000 * s) / d;
    proof {
        let si = s as int;
        let di = d as int;
        let r = score128 as int;
        assert(r == (2000 * si) / di);
        assert(r <= 2000 * si) by (nonlinear_arith)
            requires
                di >= 1,
                si >= 0,
                r == (2000 * si) / di,
        ;
        assert(score_spec(q, c) == (1000 * (2 * shared_count(q, c))) / (q.len() + c.len()
            - shared_count(q, c)));
        assert(1000 * (2 * si) == 2000 * si);
    }
    score128 as u64
}

/// All keys of an association list are distinct, compared by contents.
pub open spec fn distinct_keys(entries: Seq<Entry>) -> bool {
    forall|x: int, y: int|
        0 <= x < y < entries.len() ==> entries[x].key@ != entries[y].key@
}

/// All members of a string sequence are distinct, compared by contents.
pub open spec fn distinct_strings(vals: Seq<Seq<char>>) -> bool {
    forall|x: int, y: int| 0 <= x < y < vals.len() ==> vals[x] != vals[y]
}

/// The value sequence filed under `key`, or the empty sequence if no entry
/// carries that key.
pub open spec fn assoc_vals(entries: Seq<Entry>, key: Seq<char>) -> Seq<Seq<char>> {
    if exists|x: int| 0 <= x < entries.len() && entries[x].key@ == key {
        let x = choose|x: int| 0 <= x < entries.len() && entries[x].key@ == key;
        entries[x].vals.deep_view()
    } else {
        Seq::empty()
    }
}

/// `value` is filed under `key` somewhere in the association list.
pub open spec fn assoc_has(entries: Seq<Entry>, key: Seq<char>, value: Seq<char>) -> bool {
    exists|x: int|
        0 <= x < entries.len() && entries[x].key@ == key && entries[x].vals.deep_view().contains(
            value,
        )
}

/// A bidirectional index between items ("pages") and labels
/// ("categories"). Built once by repeated [`Recommender::ingest`] calls and
/// then queried; there is no removal.
pub struct Recommender {
    pub categories: Vec<Entry>,
    pub pages: Vec<Entry>,
}

impl Recommender {
    /// A label/item pair recorded in the category-to-items direction.
    pub open spec fn cat_has(self, label: Seq<char>, item: Seq<char>) -> bool {
        assoc_has(self.categories@, label, item)
    }

    /// An item/label pair recorded in the page-to-labels direction.
    pub open spec fn page_has(self, item: Seq<char>, label: Seq<char>) -> bool {
        assoc_has(self.pages@, item, label)
    }

    /// The set of items filed under `label`; empty for an unknown label.
    pub open spec fn items_for(self, label: Seq<char>) -> Set<Seq<char>> {
        Set::new(|item: Seq<char>| self.cat_has(label, item))
    }

    /// The set of labels carried by `item`; empty for an unknown item.
    pub open spec fn labels_for(self, item: Seq<char>) -> Set<Seq<char>> {
        Set::new(|label: Seq<char>| self.page_has(item, label))
    }

    /// The label sequence stored for `item` (empty for an unknown item);
    /// candidate scores are computed against it.
    pub open spec fn labels_seq_of(self, item: Seq<char>) -> Seq<Seq<char>> {
        assoc_vals(self.pages@, item)
    }

    /// Well-formedness: keys are unique on both sides, every value list
    /// holds distinct members, and the two directions record exactly the
    /// same label/item pairs.
    pub open spec fn wf(self) -> bool {
        &&& distinct_keys(self.categories@)
        &&& distinct_keys(self.pages@)
        &&& forall|x: int|
            0 <= x < self.categories@.len() ==> distinct_strings(
                #[trigger] self.categories@[x].vals.deep_view(),
            )
        &&& forall|x: int|
            0 <= x < self.pages@.len() ==> distinct_strings(
                #[trigger] self.pages@[x].vals.deep_view(),
            )
        &&& forall|label: Seq<char>, item: Seq<char>|
            #![trigger self.cat_has(label, item)]
            #![trigger self.page_has(item, label)]
            self.cat_has(label, item) <==> self.page_has(item, label)
    }

    /// An empty index.
    pub fn new() -> (rec: Recommender)
        ensures
            rec.wf(),
            forall|label: Seq<char>| #[trigger] rec.items_for(label) =~= Set::<Seq<char>>::empty(),
            forall|item: Seq<char>| #[trigger] rec.labels_for(item) =~= Set::<Seq<char>>::empty(),
    {
        Recommender { categories: Vec::new(), pages: Vec::new() }
    }
}

/// The position of the entry keyed by `key`, if any.
fn find_entry(entries: &Vec<Entry>, key: &String) -> (found: Option<usize>)
    ensures
        match found {
            Some(x) => x < entries@.len() && entries@[x as int].key@ == key@,
            None => forall|t: int| 0 <= t < entries@.len() ==> entries@[t].key@ != key@,
        },
{
    let mut idx: usize = 0;
    while idx < entries.len()
        invariant
            idx <= entries.len(),
            forall|t: int| 0 <= t < idx ==> entries@[t].key@ != key@,
        decreases entries.len() - idx,
    {
        if entries[idx].key.eq(key) {
            return Some(idx);
        }
        idx += 1;
    }
    None
}

/// Files `value` under `key`, creating the entry if needed; a pair that is
/// already present is left alone, so value lists stay duplicate-free.
fn add_pair(entries: &mut Vec<Entry>, key: &String, value: &String)
    requires
        distinct_keys(old(entries)@),
        forall|x: int|
            0 <= x < old(entries)@.len() ==> distinct_strings(
                #[trigger] old(entries)@[x].vals.deep_view(),
            ),
    ensures
        distinct_keys(final(entries)@),
        forall|x: int|
            0 <= x < final(entries)@.len() ==> distinct_strings(
                #[trigger] final(entries)@[x].vals.deep_view(),
            ),
        forall|k: Seq<char>, v: Seq<char>|
            #![trigger assoc_has(final(entries)@, k, v)]
            #![trigger assoc_has(old(entries)@, k, v)]
            assoc_has(final(entries)@, k, v) <==> (assoc_has(old(entries)@, k, v) || (k == key@
                && v == value@)),
{
    let ghost e0 = entries@;
    match find_entry(entries, key) {
        Some(x) => {
            if !contains_string(&entries[x].vals, value) {
                let mut vals = entries[x].vals.clone();
                proof {
                    assert(vals@ =~= e0[x as int].vals@);
                }
                vals.push(value.clone());
                let k2 = entries[x].key.clone();
                entries.set(x, Entry { key: k2, vals });
                proof {
                    let xi = x as int;
                    assert(entries@[xi].vals.deep_view() =~= e0[xi].vals.deep_view().push(
                        value@,
                    ));
                    assert forall|k: Seq<char>, v: Seq<char>|
                        #![trigger assoc_has(entries@, k, v)]
                        #![trigger assoc_has(e0, k, v)]
                        assoc_has(entries@, k, v) <==> (assoc_has(e0, k, v) || (k == key@ && v
                            == value@)) by {
                        if assoc_has(entries@, k, v) {
                            let y = choose|y: int|
                                0 <= y < entries@.len() && entries@[y].key@ == k
                                    && entries@[y].vals.deep_view().contains(v);
                            if y != xi {
                                assert(entries@[y] == e0[y]);
                                assert(assoc_has(e0, k, v));
                            } else {
                                let vs = e0[xi].vals.deep_view();
                                let w = choose|w: int|
                                    0 <= w < vs.push(value@).len() && vs.push(value@)[w] == v;
                                if w < vs.len() {
                                    assert(vs[w] == v);
                                    assert(assoc_has(e0, k, v));
                                }
                            }
                        }
                        if assoc_has(e0, k, v) {
                            let y = choose|y: int|
                                0 <= y < e0.len() && e0[y].key@ == k
                                    && e0[y].vals.deep_view().contains(v);
                            if y != xi {
                                assert(entries@[y] == e0[y]);
                                assert(assoc_has(entries@, k, v));
                            } else {
                                let vs = e0[xi].vals.deep_view();
                                let w = choose|w: int| 0 <= w < vs.len() && vs[w] == v;
                                assert(entries@[xi].vals.deep_view()[w] == v);
                                assert(assoc_has(entries@, k, v));
                            }
                        }
                        if k == key@ && v == value@ {
                            let vs = e0[xi].vals.deep_view();
                            assert(entries@[xi].vals.deep_view()[vs.len() as int] == value@);
                            assert(assoc_has(entries@, k, v));
                        }
                    }
                }
            } else {
                proof {
                    assert(e0[x as int].vals.deep_view().contains(value@));
                    assert(assoc_has(e0, key@, value@));
                }
            }
        },
        None => {
            let mut vals: Vec<String> = Vec::new();
            vals.push(value.clone());
            entries.push(Entry { key: key.clone(), vals });
            proof {
                let xi = e0.len() as int;
                assert(entries@[xi].vals.deep_view() =~= seq![value@]);
                assert forall|k: Seq<char>, v: Seq<char>|
                    #![trigger assoc_has(entries@, k, v)]
                    #![trigger assoc_has(e0, k, v)]
                    assoc_has(entries@, k, v) <==> (assoc_has(e0, k, v) || (k == key@ && v
                        == value@)) by {
                    if assoc_has(entries@, k, v) {
                        let y = choose|y: int|
                            0 <= y < entries@.len() && entries@[y].key@ == k
                                && entries@[y].vals.deep_view().contains(v);
                        if y != xi {
                            assert(entries@[y] == e0[y]);
                            assert(assoc_has(e0, k, v));
                        } else {
                            assert(entries@[xi].vals.deep_view() =~= seq![value@]);
                            assert(v == value@ && k == key@);
                        }
                    }
                    if assoc_has(e0, k, v) {
                        let y = choose|y: int|
                            0 <= y < e0.len() && e0[y].key@ == k
                                && e0[y].vals.deep_view().contains(v);
                        assert(entries@[y] == e0[y]);
                        assert(assoc_has(entries@, k, v));
                    }
                    if k == key@ && v == value@ {
                        assert(entries@[xi].vals.deep_view()[0] == value@);
                        assert(assoc_has(entries@, k, v));
                    }
                }
            }
        },
    }
}
impl Recommender {
    /// Registers `item` under every label of `labels`, in both directions
    /// at once, so the bidirectional invariant holds after every call.
    /// Records with no label at all are the loader's to reject, so at
    /// least one label is required here.
    pub fn ingest(&mut self, item: String, labels: Vec<String>)
        requires
            old(self).wf(),
            labels@.len() >= 1,
        ensures
            final(self).wf(),
            forall|l: Seq<char>, i: Seq<char>|
                #![trigger final(self).cat_has(l, i)]
                #![trigger old(self).cat_has(l, i)]
                final(self).cat_has(l, i) <==> (old(self).cat_has(l, i) || (
                labels.deep_view().contains(l) && i == item@)),
            forall|i: Seq<char>, l: Seq<char>|
                #![trigger final(self).page_has(i, l)]
                #![trigger old(self).page_has(i, l)]
                final(self).page_has(i, l) <==> (old(self).page_has(i, l) || (i == item@
                    && labels.deep_view().contains(l))),
            forall|l: Seq<char>|
                labels.deep_view().contains(l) ==> #[trigger] final(self).items_for(l) == old(
                    self,
                ).items_for(l).insert(item@),
            forall|l: Seq<char>|
                !labels.deep_view().contains(l) ==> #[trigger] final(self).items_for(l) == old(
                    self,
                ).items_for(l),
            forall|i: Seq<char>|
                i != item@ ==> #[trigger] final(self).labels_for(i) == old(self).labels_for(i),
            final(self).labels_for(item@) == old(self).labels_for(item@).union(
                labels.deep_view().to_set(),
            ),
    {
        let ghost orig = *self;
        let ghost ls = labels.deep_view();
        let mut idx: usize = 0;
        while idx < labels.len()
            invariant
                idx <= labels.len(),
                ls == labels.deep_view(),
                self.wf(),
                forall|l: Seq<char>, i: Seq<char>|
                    #![trigger self.cat_has(l, i)]
                    #![trigger orig.cat_has(l, i)]
                    self.cat_has(l, i) <==> (orig.cat_has(l, i) || (ls.take(idx as int).contains(
                        l,
                    ) && i == item@)),
                forall|i: Seq<char>, l: Seq<char>|
                    #![trigger self.page_has(i, l)]
                    #![trigger orig.page_has(i, l)]
                    self.page_has(i, l) <==> (orig.page_has(i, l) || (i == item@ && ls.take(
                        idx as int,
                    ).contains(l))),
            decreases labels.len() - idx,
        {
            let ghost before = *self;
            add_pair(&mut self.pages, &item, &labels[idx]);
            add_pair(&mut self.categories, &labels[idx], &item);
            proof {
                let lab = labels@[idx as int]@;
                assert forall|l: Seq<char>, i: Seq<char>|
                    #![trigger self.cat_has(l, i)]
                    #![trigger self.page_has(i, l)]
                    self.cat_has(l, i) <==> self.page_has(i, l) by {
                    assert(self.cat_has(l, i) <==> (before.cat_has(l, i) || (l == lab && i
                        == item@)));
                    assert(self.page_has(i, l) <==> (before.page_has(i, l) || (i == item@ && l
                        == lab)));
                    assert(before.cat_has(l, i) <==> before.page_has(i, l));
                }
                assert(labels@[idx as int]@ == ls[idx as int]);
                assert forall|l: Seq<char>|
                    ls.take(idx + 1).contains(l) <==> (ls.take(idx as int).contains(l) || l
                        == ls[idx as int]) by {
                    assert(ls.take(idx + 1) =~= ls.take(idx as int).push(ls[idx as int]));
                    if ls.take(idx as int).contains(l) {
                        let w = choose|w: int|
                            0 <= w < ls.take(idx as int).len() && ls.take(idx as int)[w] == l;
                        assert(ls.take(idx + 1)[w] == l);
                    }
                    if l == ls[idx as int] {
                        assert(ls.take(idx + 1)[idx as int] == l);
                    }
                }
            }
            idx += 1;
        }
        proof {
            assert(ls.take(labels@.len() as int) =~= ls);
            assert forall|l: Seq<char>| ls.contains(l) implies #[trigger] self.items_for(l)
                == orig.items_for(l).insert(item@) by {
                assert(self.items_for(l) =~= orig.items_for(l).insert(item@));
            }
            assert forall|l: Seq<char>| !ls.contains(l) implies #[trigger] self.items_for(l)
                == orig.items_for(l) by {
                assert(self.items_for(l) =~= orig.items_for(l));
            }
            assert forall|i: Seq<char>| i != item@ implies #[trigger] self.labels_for(i)
                == orig.labels_for(i) by {
                assert(self.labels_for(i) =~= orig.labels_for(i));
            }
            assert(self.labels_for(item@) =~= orig.labels_for(item@).union(ls.to_set()));
        }
    }
}

/// Bidirectional index consistency: after any sequence of `ingest` calls
/// (which preserve well-formedness), an item is filed under a label
/// exactly when that label is recorded for the item.
pub proof fn lemma_index_consistency(rec: Recommender, label: Seq<char>, item: Seq<char>)
    requires
        rec.wf(),
    ensures
        rec.items_for(label).contains(item) <==> rec.labels_for(item).contains(label),
{
}
impl Recommender {
    /// The items filed under `label`, as a duplicate-free vector; empty
    /// for an unknown label.
    pub fn items_for_label(&self, label: &String) -> (res: Vec<String>)
        requires
            self.wf(),
        ensures
            res.deep_view().to_set() == self.items_for(label@),
            distinct_strings(res.deep_view()),
    {
        match find_entry(&self.categories, label) {
            Some(x) => {
                let res = self.categories[x].vals.clone();
                proof {
                    assert(res@ =~= self.categories@[x as int].vals@);
                    assert(res.deep_view() =~= self.categories@[x as int].vals.deep_view());
                    assert forall|i: Seq<char>| #[trigger] self.cat_has(label@, i) implies
                        res.deep_view().contains(i) by {
                        let y = choose|y: int|
                            0 <= y < self.categories@.len() && self.categories@[y].key@ == label@
                                && self.categories@[y].vals.deep_view().contains(i);
                        assert(y == x as int);
                    }
                    assert(res.deep_view().to_set() =~= self.items_for(label@));
                }
                res
            },
            None => {
                let res: Vec<String> = Vec::new();
                proof {
                    assert(res.deep_view() =~= Seq::<Seq<char>>::empty());
                    assert(res.deep_view().to_set() =~= self.items_for(label@));
                }
                res
            },
        }
    }

    /// The labels recorded for `item`, as a duplicate-free vector; empty
    /// for an unknown item.
    pub fn labels_for_item(&self, item: &String) -> (res: Vec<String>)
        requires
            self.wf(),
        ensures
            res.deep_view().to_set() == self.labels_for(item@),
            distinct_strings(res.deep_view()),
    {
        match find_entry(&self.pages, item) {
            Some(x) => {
                let res = self.pages[x].vals.clone();
                proof {
                    assert(res@ =~= self.pages@[x as int].vals@);
                    assert(res.deep_view() =~= self.pages@[x as int].vals.deep_view());
                    assert forall|l: Seq<char>| #[trigger] self.page_has(item@, l) implies
                        res.deep_view().contains(l) by {
                        let y = choose|y: int|
                            0 <= y < self.pages@.len() && self.pages@[y].key@ == item@
                                && self.pages@[y].vals.deep_view().contains(l);
                        assert(y == x as int);
                    }
                    assert(res.deep_view().to_set() =~= self.labels_for(item@));
                }
                res
            },
            None => {
                let res: Vec<String> = Vec::new();
                proof {
                    assert(res.deep_view() =~= Seq::<Seq<char>>::empty());
                    assert(res.deep_view().to_set() =~= self.labels_for(item@));
                }
                res
            },
        }
    }

    /// The items sharing at least one label with the query sequence.
    pub open spec fn candidates(self, query: Seq<Seq<char>>) -> Set<Seq<char>> {
        Set::new(
            |item: Seq<char>|
                exists|x: int| 0 <= x < query.len() && self.cat_has(#[trigger] query[x], item),
        )
    }

    /// The score an item ranks with: the overlap of the whole query
    /// against the item's stored label sequence.
    pub open spec fn score_of(self, query: Seq<Seq<char>>, item: Seq<char>) -> int {
        score_spec(query, self.labels_seq_of(item))
    }

    /// What a ranking result is: every candidate item exactly once, in
    /// non-decreasing score order, and nothing else.
    pub open spec fn is_ranking(self, query: Seq<Seq<char>>, res: Seq<Seq<char>>) -> bool {
        &&& distinct_strings(res)
        &&& forall|x: int|
            0 <= x < res.len() ==> self.candidates(query).contains(#[trigger] res[x])
        &&& forall|item: Seq<char>|
            #[trigger] self.candidates(query).contains(item) ==> res.contains(item)
        &&& forall|x: int, y: int|
            0 <= x <= y < res.len() ==> self.score_of(query, res[x]) <= self.score_of(
                query,
                res[y],
            )
    }
}
impl Recommender {
    /// Ranks the index against the query label sequence `categories`:
    /// every item filed under at least one query label is scored once with
    /// [`similarity`] against the whole query, and the items come back
    /// ordered by non-decreasing score. Items sharing no label with the
    /// query never appear. Duplicate query labels are harmless; an unknown
    /// label simply contributes no candidates.
    pub fn recommend(&self, categories: Vec<String>) -> (res: Vec<String>)
        requires
            self.wf(),
            categories@.len() <= MAX_QUERY_LEN,
        ensures
            self.is_ranking(categories.deep_view(), res.deep_view()),
    {
        let ghost q = categories.deep_view();
        let mut items: Vec<String> = Vec::new();
        let mut scores: Vec<u64> = Vec::new();
        let mut idx: usize = 0;
        while idx < categories.len()
            invariant
                idx <= categories.len(),
                self.wf(),
                q == categories.deep_view(),
                categories@.len() <= MAX_QUERY_LEN,
                items@.len() == scores@.len(),
                distinct_strings(items.deep_view()),
                forall|t: int|
                    0 <= t < items@.len() ==> self.candidates(q).contains(
                        #[trigger] items.deep_view()[t],
                    ),
                forall|t: int|
                    0 <= t < items@.len() ==> scores@[t] as int == self.score_of(
                        q,
                        #[trigger] items.deep_view()[t],
                    ),
                forall|item: Seq<char>, x: int|
                    0 <= x < idx && #[trigger] self.cat_has(q[x], item)
                        ==> items.deep_view().contains(item),
            decreases categories.len() - idx,
        {
            match find_entry(&self.categories, &categories[idx]) {
                Some(ci) => {
                    proof {
                        assert(self.categories@[ci as int].key@ == q[idx as int]);
                    }
                    let mut vi: usize = 0;
                    while vi < self.categories[ci].vals.len()
                        invariant
                            self.wf(),
                            q == categories.deep_view(),
                            categories@.len() <= MAX_QUERY_LEN,
                            idx < categories.len(),
                            ci < self.categories@.len(),
                            self.categories@[ci as int].key@ == q[idx as int],
                            vi <= self.categories@[ci as int].vals@.len(),
                            items@.len() == scores@.len(),
                            distinct_strings(items.deep_view()),
                            forall|t: int|
                                0 <= t < items@.len() ==> self.candidates(q).contains(
                                    #[trigger] items.deep_view()[t],
                                ),
                            forall|t: int|
                                0 <= t < items@.len() ==> scores@[t] as int == self.score_of(
                                    q,
                                    #[trigger] items.deep_view()[t],
                                ),
                            forall|item: Seq<char>, x: int|
                                0 <= x < idx && #[trigger] self.cat_has(q[x], item)
                                    ==> items.deep_view().contains(item),
                            forall|t: int|
                                0 <= t < vi ==> items.deep_view().contains(
                                    #[trigger] self.categories@[ci as int].vals.deep_view()[t],
                                ),
                        decreases self.categories@[ci as int].vals@.len() - vi,
                    {
                        let ghost items_before = items.deep_view();
                        let page = &self.categories[ci].vals[vi];
                        proof {
                            assert(self.categories@[ci as int].vals.deep_view()[vi as int]
                                == page@);
                            assert(self.cat_has(q[idx as int], page@));
                            assert(self.candidates(q).contains(page@));
                        }
                        if !contains_string(&items, page) {
                            match find_entry(&self.pages, page) {
                                Some(pi) => {
                                    let sc = similarity(&categories, &self.pages[pi].vals);
                                    proof {
                                        let y = choose|y: int|
                                            0 <= y < self.pages@.len() && self.pages@[y].key@
                                                == page@;
                                        assert(y == pi as int);
                                        assert(self.labels_seq_of(page@) == self.pages@[
                                            pi as int].vals.deep_view());
                                    }
                                    items.push(page.clone());
                                    scores.push(sc);
                                    proof {
                                        assert(items.deep_view() =~= items_before.push(page@));
                                        assert forall|w: Seq<char>|
                                            items_before.contains(w) implies items.deep_view()
                                            .contains(w) by {
                                            let u = choose|u: int|
                                                0 <= u < items_before.len() && items_before[u]
                                                    == w;
                                            assert(items.deep_view()[u] == w);
                                        }
                                        assert(items.deep_view()[items_before.len() as int]
                                            == page@);
                                    }
                                },
                                None => {
                                    proof {
                                        assert(self.page_has(page@, q[idx as int]));
                                        assert(false);
                                    }
                                },
                            }
                        }
                        vi += 1;
                    }
                    proof {
                        assert forall|item: Seq<char>, x: int|
                            0 <= x < idx + 1 && #[trigger] self.cat_has(q[x], item) implies items
                            .deep_view().contains(item) by {
                            if x == idx as int {
                                let y = choose|y: int|
                                    0 <= y < self.categories@.len() && self.categories@[y].key@
                                        == q[x] && self.categories@[y].vals.deep_view().contains(
                                        item,
                                    );
                                assert(y == ci as int);
                            }
                        }
                    }
                },
                None => {
                    proof {
                        assert forall|item: Seq<char>, x: int|
                            0 <= x < idx + 1 && #[trigger] self.cat_has(q[x], item) implies items
                            .deep_view().contains(item) by {
                            if x == idx as int {
                                let y = choose|y: int|
                                    0 <= y < self.categories@.len() && self.categories@[y].key@
                                        == q[x] && self.categories@[y].vals.deep_view().contains(
                                        item,
                                    );
                            }
                        }
                    }
                },
            }
            idx += 1;
        }
        let ghost k0 = items@;
        let ghost kd0 = items.deep_view();
        let ghost v0 = scores@;
        proof {
            assert(forall|t: int| 0 <= t < k0.len() ==> kd0[t] == #[trigger] k0[t]@);
            assert(distinct_strings(kd0));
            assert(forall|t: int|
                0 <= t < k0.len() ==> self.candidates(q).contains(#[trigger] kd0[t]));
            assert(forall|t: int|
                0 <= t < k0.len() ==> v0[t] as int == self.score_of(q, #[trigger] kd0[t]));
        }
        quicksort(&mut scores, &mut items);
        proof {
            let k1 = items@;
            let v1 = scores@;
            broadcast use vstd::seq_lib::to_multiset_contains;
            broadcast use vstd::multiset::group_multiset_axioms;

            // values with equal contents sit at equal positions before the
            // sort, so element counts stay at one afterwards
            assert(k0.no_duplicates()) by {
                assert forall|x: int, y: int|
                    0 <= x < k0.len() && 0 <= y < k0.len() && x != y implies k0[x] != k0[y] by {
                    assert(kd0[x] != kd0[y]);
                    assert(k0[x]@ == kd0[x] && k0[y]@ == kd0[y]);
                }
            }
            k0.lemma_multiset_has_no_duplicates();
            k1.lemma_multiset_has_no_duplicates_conv();
            assert(k1.no_duplicates());

            // each post-sort entry is some pre-sort entry, pair and all
            assert forall|t: int| #![trigger k1[t]] 0 <= t < k1.len() implies exists|a: int|
                0 <= a < k0.len() && #[trigger] k0[a] == k1[t] && v0[a] == v1[t] by {
                let pr = pairs(v1, k1);
                assert(pr[t] == (v1[t], k1[t]));
                assert(pr.contains(pr[t]));
                lemma_same_multiset_contains(pr, pairs(v0, k0), pr[t]);
                let a = choose|a: int| 0 <= a < pairs(v0, k0).len() && pairs(v0, k0)[a] == pr[t];
                assert(pairs(v0, k0)[a] == (v0[a], k0[a]));
                assert(k0[a] == k1[t] && v0[a] == v1[t]);
            }

            assert forall|x: int, y: int|
                0 <= x < y < k1.len() implies items.deep_view()[x] != items.deep_view()[y] by {
                assert(items.deep_view()[x] == k1[x]@);
                assert(items.deep_view()[y] == k1[y]@);
                if k1[x]@ == k1[y]@ {
                    let a = choose|a: int|
                        0 <= a < k0.len() && k0[a] == k1[x] && v0[a] == v1[x];
                    let b = choose|b: int|
                        0 <= b < k0.len() && k0[b] == k1[y] && v0[b] == v1[y];
                    if a != b {
                        assert(kd0[a] != kd0[b]);
                        assert(k0[a]@ == kd0[a] && k0[b]@ == kd0[b]);
                        assert(false);
                    }
                    assert(k1[x] == k1[y]);
                    assert(false);
                }
            }
            assert(distinct_strings(items.deep_view()));

            assert forall|t: int| 0 <= t < k1.len() implies self.candidates(q).contains(
                #[trigger] items.deep_view()[t],
            ) && v1[t] as int == self.score_of(q, items.deep_view()[t]) by {
                let a = choose|a: int| 0 <= a < k0.len() && k0[a] == k1[t] && v0[a] == v1[t];
                assert(items.deep_view()[t] == k1[t]@);
                assert(k0[a]@ == kd0[a]);
                assert(self.candidates(q).contains(kd0[a]));
                assert(v0[a] as int == self.score_of(q, kd0[a]));
            }

            assert forall|item: Seq<char>| #[trigger] self.candidates(q).contains(item) implies
                items.deep_view().contains(item) by {
                let x = choose|x: int| 0 <= x < q.len() && self.cat_has(q[x], item);
                assert(kd0.contains(item));
                let u = choose|u: int| 0 <= u < kd0.len() && kd0[u] == item;
                assert(k0[u]@ == kd0[u]);
                assert(k0.contains(k0[u]));
                lemma_same_multiset_contains(k0, k1, k0[u]);
                let w = choose|w: int| 0 <= w < k1.len() && k1[w] == k0[u];
                assert(items.deep_view()[w] == item);
            }

            assert forall|x: int, y: int| 0 <= x <= y < items.deep_view().len() implies self
                .score_of(q, items.deep_view()[x]) <= self.score_of(
                q,
                items.deep_view()[y],
            ) by {
                assert(v1[x] <= v1[y]);
                assert(v1[x] as int == self.score_of(q, items.deep_view()[x]));
                assert(v1[y] as int == self.score_of(q, items.deep_view()[y]));
            }
        }
        items
    }
}
/// No query position counts as shared when the candidate holds none of
/// the query's labels.
proof fn lemma_shared_zero_when_disjoint(query: Seq<Seq<char>>, cand: Seq<Seq<char>>)
    requires
        forall|x: int| 0 <= x < query.len() ==> !cand.contains(#[trigger] query[x]),
    ensures
        shared_count(query, cand) == 0,
    decreases query.len(),
{
    if query.len() > 0 {
        assert(forall|x: int|
            0 <= x < query.drop_last().len() ==> query.drop_last()[x] == #[trigger] query[x]);
        lemma_shared_zero_when_disjoint(query.drop_last(), cand);
        assert(query.last() == query[query.len() - 1]);
    }
}

/// The overlap score is never negative.
pub proof fn lemma_score_nonneg(query: Seq<Seq<char>>, cand: Seq<Seq<char>>)
    ensures
        0 <= score_spec(query, cand),
{
    lemma_shared_count_bounds(query, cand);
    let s = shared_count(query, cand);
    let d = query.len() + cand.len() - s;
    if d != 0 {
        assert(d >= 1);
        assert(0 <= (1000 * (2 * s)) / d) by (nonlinear_arith)
            requires
                s >= 0,
                d >= 1,
        ;
    }
}

/// A query that shares no label with the candidate scores exactly zero.
pub proof fn lemma_score_zero_when_disjoint(query: Seq<Seq<char>>, cand: Seq<Seq<char>>)
    requires
        forall|x: int| 0 <= x < query.len() ==> !cand.contains(#[trigger] query[x]),
    ensures
        score_spec(query, cand) == 0,
{
    lemma_shared_zero_when_disjoint(query, cand);
    let d: int = query.len() + cand.len() as int;
    if d != 0 {
        assert(0int / d == 0) by (nonlinear_arith)
            requires
                d >= 1,
        ;
    }
}

/// The score keeps to the nominal `0 ..= 1000` scale whenever the shared
/// count stays within a third of the combined lengths; a query whose
/// duplicated labels all hit a small candidate can exceed the scale, so
/// that bound is genuinely needed.
pub proof fn lemma_score_upper(query: Seq<Seq<char>>, cand: Seq<Seq<char>>)
    requires
        3 * shared_count(query, cand) <= query.len() + cand.len(),
    ensures
        score_spec(query, cand) <= 1000,
{
    lemma_shared_count_bounds(query, cand);
    let s = shared_count(query, cand);
    let d = query.len() + cand.len() - s;
    if d != 0 {
        assert(d >= 2 * s);
        assert((1000 * (2 * s)) / d <= 1000) by (nonlinear_arith)
            requires
                s >= 0,
                d >= 1,
                d >= 2 * s,
        ;
    }
}

/// Coverage: every ranked item shares at least one label with the query;
/// an item with no label in common is never returned.
pub proof fn lemma_coverage(rec: Recommender, query: Seq<Seq<char>>, res: Seq<Seq<char>>, x: int)
    requires
        rec.wf(),
        rec.is_ranking(query, res),
        0 <= x < res.len(),
    ensures
        exists|w: int| 0 <= w < query.len() && rec.labels_for(res[x]).contains(#[trigger] query[w]),
{
    assert(rec.candidates(query).contains(res[x]));
    let w = choose|w: int| 0 <= w < query.len() && rec.cat_has(#[trigger] query[w], res[x]);
    assert(rec.page_has(res[x], query[w]));
    assert(rec.labels_for(res[x]).contains(query[w]));
}

/// Two duplicate-free sequences that are sorted by score, hold the same
/// elements, and never pair distinct elements with one score, are the same
/// sequence.
proof fn lemma_ranked_seqs_equal(
    rec: Recommender,
    query: Seq<Seq<char>>,
    r1: Seq<Seq<char>>,
    r2: Seq<Seq<char>>,
)
    requires
        distinct_strings(r1),
        distinct_strings(r2),
        forall|x: int| 0 <= x < r1.len() ==> r2.contains(#[trigger] r1[x]),
        forall|x: int| 0 <= x < r2.len() ==> r1.contains(#[trigger] r2[x]),
        forall|x: int, y: int|
            0 <= x <= y < r1.len() ==> rec.score_of(query, r1[x]) <= rec.score_of(query, r1[y]),
        forall|x: int, y: int|
            0 <= x <= y < r2.len() ==> rec.score_of(query, r2[x]) <= rec.score_of(query, r2[y]),
        forall|x: int, y: int|
            0 <= x < r1.len() && 0 <= y < r2.len() && r1[x] != r2[y] ==> rec.score_of(
                query,
                r1[x],
            ) != rec.score_of(query, r2[y]),
    ensures
        r1 == r2,
    decreases r1.len(),
{
    if r1.len() == 0 {
        if r2.len() > 0 {
            assert(r1.contains(r2[0]));
            assert(false);
        }
        assert(r1 =~= r2);
    } else {
        if r2.len() == 0 {
            assert(r2.contains(r1[0]));
            assert(false);
        }
        let w1 = choose|w: int| 0 <= w < r1.len() && r1[w] == r2[0];
        assert(rec.score_of(query, r1[0]) <= rec.score_of(query, r1[w1]));
        let w2 = choose|w: int| 0 <= w < r2.len() && r2[w] == r1[0];
        assert(rec.score_of(query, r2[0]) <= rec.score_of(query, r2[w2]));
        assert(rec.score_of(query, r1[0]) == rec.score_of(query, r2[0]));
        assert(r1[0] == r2[0]);
        let t1 = r1.drop_first();
        let t2 = r2.drop_first();
        assert forall|x: int| 0 <= x < t1.len() implies t2.contains(#[trigger] t1[x]) by {
            assert(t1[x] == r1[x + 1]);
            assert(r2.contains(r1[x + 1]));
            let w = choose|w: int| 0 <= w < r2.len() && r2[w] == r1[x + 1];
            if w == 0 {
                assert(r1[x + 1] == r1[0]);
                assert(false);
            }
            assert(t2[w - 1] == r1[x + 1]);
        }
        assert forall|x: int| 0 <= x < t2.len() implies t1.contains(#[trigger] t2[x]) by {
            assert(t2[x] == r2[x + 1]);
            assert(r1.contains(r2[x + 1]));
            let w = choose|w: int| 0 <= w < r1.len() && r1[w] == r2[x + 1];
            if w == 0 {
                assert(r2[x + 1] == r2[0]);
                assert(false);
            }
            assert(t1[w - 1] == r2[x + 1]);
        }
        assert(distinct_strings(t1)) by {
            assert forall|x: int, y: int| 0 <= x < y < t1.len() implies t1[x] != t1[y] by {
                assert(t1[x] == r1[x + 1] && t1[y] == r1[y + 1]);
            }
        }
        assert(distinct_strings(t2)) by {
            assert forall|x: int, y: int| 0 <= x < y < t2.len() implies t2[x] != t2[y] by {
                assert(t2[x] == r2[x + 1] && t2[y] == r2[y + 1]);
            }
        }
        assert forall|x: int, y: int| 0 <= x <= y < t1.len() implies rec.score_of(query, t1[x])
            <= rec.score_of(query, t1[y]) by {
            assert(t1[x] == r1[x + 1] && t1[y] == r1[y + 1]);
        }
        assert forall|x: int, y: int| 0 <= x <= y < t2.len() implies rec.score_of(query, t2[x])
            <= rec.score_of(query, t2[y]) by {
            assert(t2[x] == r2[x + 1] && t2[y] == r2[y + 1]);
        }
        assert forall|x: int, y: int|
            0 <= x < t1.len() && 0 <= y < t2.len() && t1[x] != t2[y] implies rec.score_of(
            query,
            t1[x],
        ) != rec.score_of(query, t2[y]) by {
            assert(t1[x] == r1[x + 1] && t2[y] == r2[y + 1]);
        }
        lemma_ranked_seqs_equal(rec, query, t1, t2);
        assert forall|x: int| 0 <= x < r1.len() implies r1[x] == r2[x] by {
            if x > 0 {
                assert(r1[x] == t1[x - 1] && r2[x] == t2[x - 1]);
            }
        }
        assert(r1 =~= r2);
    }
}

/// Idempotence of ranking: two rankings of one query against one
/// unchanged index are the very same sequence, provided no two distinct
/// candidate items tie on score. (When two candidates tie, both orders
/// satisfy the ranking contract, and this statement does not pick between
/// them.)
pub proof fn lemma_ranking_unique(
    rec: Recommender,
    query: Seq<Seq<char>>,
    r1: Seq<Seq<char>>,
    r2: Seq<Seq<char>>,
)
    requires
        rec.is_ranking(query, r1),
        rec.is_ranking(query, r2),
        forall|a: Seq<char>, b: Seq<char>|
            rec.candidates(query).contains(a) && rec.candidates(query).contains(b) && a != b
                ==> rec.score_of(query, a) != rec.score_of(query, b),
    ensures
        r1 == r2,
{
    assert forall|x: int| 0 <= x < r1.len() implies r2.contains(#[trigger] r1[x]) by {
        assert(rec.candidates(query).contains(r1[x]));
    }
    assert forall|x: int| 0 <= x < r2.len() implies r1.contains(#[trigger] r2[x]) by {
        assert(rec.candidates(query).contains(r2[x]));
    }
    assert forall|x: int, y: int|
        0 <= x < r1.len() && 0 <= y < r2.len() && r1[x] != r2[y] implies rec.score_of(
        query,
        r1[x],
    ) != rec.score_of(query, r2[y]) by {
        assert(rec.candidates(query).contains(r1[x]));
        assert(rec.candidates(query).contains(r2[y]));
    }
    lemma_ranked_seqs_equal(rec, query, r1, r2);
}
/// The stored label sequence of an item carries exactly the item's label
/// set: the scores that [`Recommender::recommend`] orders by are therefore
/// scores against [`Recommender::labels_for`].
pub proof fn lemma_labels_seq_matches_set(rec: Recommender, item: Seq<char>)
    requires
        rec.wf(),
    ensures
        rec.labels_seq_of(item).to_set() == rec.labels_for(item),
{
    if exists|x: int| 0 <= x < rec.pages@.len() && rec.pages@[x].key@ == item {
        let x = choose|x: int| 0 <= x < rec.pages@.len() && rec.pages@[x].key@ == item;
        assert forall|l: Seq<char>| #[trigger] rec.page_has(item, l) implies rec.pages@[x]
            .vals.deep_view().contains(l) by {
            let y = choose|y: int|
                0 <= y < rec.pages@.len() && rec.pages@[y].key@ == item && rec.pages@[y]
                    .vals.deep_view().contains(l);
            assert(y == x);
        }
        assert(rec.labels_seq_of(item) == rec.pages@[x].vals.deep_view());
        assert(rec.labels_seq_of(item).to_set() =~= rec.labels_for(item));
    } else {
        assert(rec.labels_seq_of(item) =~= Seq::<Seq<char>>::empty());
        assert forall|l: Seq<char>| !(#[trigger] rec.page_has(item, l)) by {}
        assert(rec.labels_seq_of(item).to_set() =~= rec.labels_for(item));
    }
}

} // verus!
