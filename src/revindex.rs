use std::collections::{HashMap, HashSet};
use vstd::prelude::*;

use crate::counts::{counts_of, is_ranking, precedes, ranking, tally, tally_map, SigCounter};
use crate::sketch::{MinHashSketch, SketchTemplate};

verus! {

broadcast use vstd::std_specs::hash::group_hash_axioms;

/// A reference dataset as loaded for the index: its name, and its sketch
/// under the index's template, if it has a compatible one.
pub struct ReferenceSketch {
    pub name: String,
    pub minhash: Option<MinHashSketch>,
}

impl ReferenceSketch {
    pub fn new(name: String, minhash: Option<MinHashSketch>) -> (r: Self)
        ensures
            r.name == name,
            r.minhash == minhash,
    {
        ReferenceSketch { name, minhash }
    }

    pub open spec fn wf(&self) -> bool {
        match self.minhash {
            Some(m) => m.wf(),
            None => true,
        }
    }
}

/// The hashes a reference contributes: none without a compatible sketch.
pub open spec fn ref_hashes(r: ReferenceSketch) -> Set<u64> {
    match r.minhash {
        Some(m) => m.hash_set(),
        None => Set::empty(),
    }
}

/// The union of the hashes of a list of query sketches.
pub open spec fn union_of(qs: Seq<MinHashSketch>) -> Set<u64> {
    Set::new(|h: u64| exists|i: int| 0 <= i < qs.len() && #[trigger] qs[i].hash_set().contains(h))
}

/// Whether a hash passes an optional filter set.
pub open spec fn passes(filter: Option<Set<u64>>, h: u64) -> bool {
    match filter {
        Some(s) => s.contains(h),
        None => true,
    }
}

/// The filter that a list of queries imposes: the union of their hashes.
pub open spec fn query_filter(queries: Option<Seq<MinHashSketch>>) -> Option<Set<u64>> {
    match queries {
        Some(qs) => Some(union_of(qs)),
        None => None,
    }
}

/// The hashes of a reference that an index built with `queries` keeps.
pub open spec fn kept_hashes(r: ReferenceSketch, queries: Option<Seq<MinHashSketch>>) -> Set<u64> {
    ref_hashes(r).filter(|h: u64| passes(query_filter(queries), h))
}

/// The mapping that building from `refs` gives: each kept hash, with the
/// set of datasets that keep it.
pub open spec fn build_view(
    refs: Seq<ReferenceSketch>,
    queries: Option<Seq<MinHashSketch>>,
) -> Map<u64, Set<usize>> {
    Map::new(
        |h: u64| exists|d: int| 0 <= d < refs.len() && #[trigger] kept_hashes(refs[d], queries).contains(h),
        |h: u64| Set::new(|d: usize| d < refs.len() && kept_hashes(refs[d as int], queries).contains(h)),
    )
}

/// The datasets that a raw map gives a hash, empty when it has no entry.
pub open spec fn ids_at(m: Map<u64, Vec<usize>>, h: u64) -> Set<usize> {
    if m.contains_key(h) {
        m[h]@.to_set()
    } else {
        Set::empty()
    }
}

/// A list of dataset identifiers as an index entry holds it: not empty, no
/// repetitions, each identifier below `n`.
pub open spec fn ids_ok(v: Seq<usize>, n: nat) -> bool {
    &&& v.len() > 0
    &&& v.no_duplicates()
    &&& forall|i: int| 0 <= i < v.len() ==> v[i] < n
}

/// `keys` lists the keys of `m`, each once.
pub open spec fn keys_match(m: Map<u64, Vec<usize>>, keys: Seq<u64>) -> bool {
    &&& keys.no_duplicates()
    &&& keys.to_set() == m.dom()
}

pub open spec fn filter_view(f: &Option<HashSet<u64>>) -> Option<Set<u64>> {
    match f {
        Some(s) => Some(s@),
        None => None,
    }
}

pub(crate) fn passes_filter(filter: &Option<HashSet<u64>>, h: u64) -> (r: bool)
    ensures
        r == passes(filter_view(filter), h),
{
    match filter {
        Some(s) => s.contains(&h),
        None => true,
    }
}

/// Whether `v` is a valid list of identifiers below `n` (see `ids_ok`).
fn valid_ids(v: &Vec<usize>, n: usize) -> (r: bool)
    ensures
        r == ids_ok(v@, n as nat),
{
    if v.len() == 0 {
        return false;
    }
    let mut seen: HashSet<usize> = HashSet::new();
    let mut k: usize = 0;
    while k < v.len()
        invariant
            k <= v.len(),
            seen@ == v@.subrange(0, k as int).to_set(),
            v@.subrange(0, k as int).no_duplicates(),
            forall|j: int| 0 <= j < k ==> v@[j] < n,
        decreases v.len() - k,
    {
        let d = v[k];
        if d >= n {
            return false;
        }
        if seen.contains(&d) {
            proof {
                let j = choose|j: int| 0 <= j < k && v@.subrange(0, k as int)[j] == d;
                assert(v@[j] == v@[k as int]);
            }
            return false;
        }
        seen.insert(d);
        proof {
            let pre = v@.subrange(0, k as int);
            pre.lemma_push_to_set_commute(d);
            assert(pre.push(d) == v@.subrange(0, k + 1));
            let next = v@.subrange(0, k + 1);
            assert forall|a: int, b: int| 0 <= a < b < k + 1 implies #[trigger] next[a] != #[trigger] next[b] by {
                if b == k {
                    assert(pre.contains(pre[a]));
                } else {
                    assert(pre[a] != pre[b]);
                }
            }
        }
        k += 1;
    }
    assert(v@.subrange(0, v.len() as int) == v@);
    true
}

/// A copy of a list of identifiers.
pub(crate) fn copy_ids(v: &Vec<usize>) -> (c: Vec<usize>)
    ensures
        c@ == v@,
{
    let mut c: Vec<usize> = Vec::new();
    let mut k: usize = 0;
    while k < v.len()
        invariant
            k <= v.len(),
            c@ == v@.subrange(0, k as int),
        decreases v.len() - k,
    {
        c.push(v[k]);
        assert(v@.subrange(0, k + 1) == v@.subrange(0, k as int).push(v@[k as int]));
        k += 1;
    }
    assert(v@.subrange(0, v.len() as int) == v@);
    c
}

/// Adds dataset `d` to the entry of every hash of `hs` that passes `filter`.
pub(crate) fn add_dataset(
    map: &mut HashMap<u64, Vec<usize>>,
    keys: &mut Vec<u64>,
    d: usize,
    hs: &Vec<u64>,
    filter: &Option<HashSet<u64>>,
)
    requires
        hs@.no_duplicates(),
        keys_match(old(map)@, old(keys)@),
        forall|h: u64| #[trigger] old(map)@.contains_key(h) ==> ids_ok(old(map)@[h]@, d as nat),
    ensures
        keys_match(final(map)@, final(keys)@),
        forall|h: u64| #[trigger] final(map)@.contains_key(h) ==> ids_ok(final(map)@[h]@, (d + 1) as nat),
        forall|h: u64| #[trigger]
            final(map)@.contains_key(h) <==> old(map)@.contains_key(h) || (hs@.contains(h)
                && passes(filter_view(filter), h)),
        forall|h: u64| #[trigger]
            ids_at(final(map)@, h) == (if hs@.contains(h) && passes(filter_view(filter), h) {
                ids_at(old(map)@, h).insert(d)
            } else {
                ids_at(old(map)@, h)
            }),
{
    let ghost m0 = map@;
    let mut j: usize = 0;
    while j < hs.len()
        invariant
            j <= hs.len(),
            hs@.no_duplicates(),
            keys_match(map@, keys@),
            forall|h: u64| #[trigger] map@.contains_key(h) ==> ids_ok(map@[h]@, (d + 1) as nat),
            forall|h: u64| #[trigger] map@.contains_key(h) && !hs@.subrange(0, j as int).contains(h) ==> !map@[h]@.contains(d),
            forall|h: u64| #[trigger]
                map@.contains_key(h) <==> m0.contains_key(h) || (hs@.subrange(0, j as int).contains(h)
                    && passes(filter_view(filter), h)),
            forall|h: u64| #[trigger]
                ids_at(map@, h) == (if hs@.subrange(0, j as int).contains(h) && passes(filter_view(filter), h) {
                    ids_at(m0, h).insert(d)
                } else {
                    ids_at(m0, h)
                }),
            forall|h: u64| #[trigger] m0.contains_key(h) ==> ids_ok(m0[h]@, d as nat),
        decreases hs.len() - j,
    {
        let h = hs[j];
        let ghost pre = hs@.subrange(0, j as int);
        assert(hs@.subrange(0, j + 1) == pre.push(h));
        assert(!pre.contains(h)) by {
            if pre.contains(h) {
                let k = choose|k: int| 0 <= k < pre.len() && pre[k] == h;
                assert(hs@[k] == hs@[j as int]);
            }
        }
        if passes_filter(filter, h) {
            let ghost mb = map@;
            let ghost kb = keys@;
            match map.remove(&h) {
                Some(v) => {
                    let mut v2 = v;
                    v2.push(d);
                    map.insert(h, v2);
                    assert(map@.dom() == mb.dom());
                    assert(v2@.to_set() == v@.to_set().insert(d)) by {
                        v@.lemma_push_to_set_commute(d);
                    }
                    assert(v2@.no_duplicates()) by {
                        assert(!v@.contains(d));
                    }
                },
                None => {
                    let mut v2: Vec<usize> = Vec::new();
                    v2.push(d);
                    map.insert(h, v2);
                    keys.push(h);
                    assert(v2@.to_set() == Set::<usize>::empty().insert(d)) by {
                        assert(v2@ == Seq::<usize>::empty().push(d));
                        Seq::<usize>::empty().lemma_push_to_set_commute(d);
                    }
                    assert(!kb.contains(h)) by {
                        assert(!mb.dom().contains(h));
                    }
                    proof { kb.lemma_push_to_set_commute(h); }
                    assert(map@.dom() == mb.dom().insert(h));
                    assert(keys@ == kb.push(h));
                    assert forall|a: int, b: int| 0 <= a < b < keys@.len() implies keys@[a] != keys@[b] by {
                        if b == kb.len() {
                            assert(kb.contains(kb[a]));
                        } else {
                            assert(kb[a] != kb[b]);
                        }
                    }
                },
            }
            assert forall|x: u64| #[trigger]
                map@.contains_key(x) <==> m0.contains_key(x) || (hs@.subrange(0, j + 1).contains(x)
                    && passes(filter_view(filter), x)) by {
                assert(hs@.subrange(0, j + 1) == pre.push(h));
                if x != h {
                    assert(hs@.subrange(0, j + 1).contains(x) <==> pre.contains(x));
                    assert(map@.contains_key(x) == mb.contains_key(x));
                } else {
                    assert(pre.push(h)[pre.len() as int] == h);
                }
            }
            assert forall|x: u64| #[trigger]
                ids_at(map@, x) == (if hs@.subrange(0, j + 1).contains(x) && passes(filter_view(filter), x) {
                    ids_at(m0, x).insert(d)
                } else {
                    ids_at(m0, x)
                }) by {
                assert(hs@.subrange(0, j + 1) == pre.push(h));
                if x != h {
                    assert(hs@.subrange(0, j + 1).contains(x) <==> pre.contains(x));
                    assert(ids_at(map@, x) == ids_at(mb, x));
                } else {
                    assert(pre.push(h)[pre.len() as int] == h);
                    assert(ids_at(mb, h) == ids_at(m0, h));
                }
            }
        } else {
            assert forall|x: u64| #[trigger]
                map@.contains_key(x) <==> m0.contains_key(x) || (hs@.subrange(0, j + 1).contains(x)
                    && passes(filter_view(filter), x)) by {
                assert(hs@.subrange(0, j + 1) == pre.push(h));
                assert(pre.push(h)[pre.len() as int] == h);
                assert(hs@.subrange(0, j + 1).contains(x) <==> pre.contains(x) || x == h);
            }
            assert forall|x: u64| #[trigger]
                ids_at(map@, x) == (if hs@.subrange(0, j + 1).contains(x) && passes(filter_view(filter), x) {
                    ids_at(m0, x).insert(d)
                } else {
                    ids_at(m0, x)
                }) by {
                assert(hs@.subrange(0, j + 1) == pre.push(h));
                assert(pre.push(h)[pre.len() as int] == h);
                assert(hs@.subrange(0, j + 1).contains(x) <==> pre.contains(x) || x == h);
            }
        }
        assert forall|x: u64| #[trigger] map@.contains_key(x) && !hs@.subrange(0, j + 1).contains(x)
            implies !map@[x]@.contains(d) by {
            assert(hs@.subrange(0, j + 1) == pre.push(h));
            assert(pre.push(h)[pre.len() as int] == h);
            assert(!pre.contains(x));
        }
        j += 1;
    }
    assert(hs@.subrange(0, hs.len() as int) == hs@);
}

/// The set of all hashes of the queries.
pub fn union_hashes(qs: &Vec<MinHashSketch>) -> (r: HashSet<u64>)
    ensures
        r@ == union_of(qs@),
{
    let mut r: HashSet<u64> = HashSet::new();
    let mut i: usize = 0;
    while i < qs.len()
        invariant
            i <= qs.len(),
            r@ == union_of(qs@.subrange(0, i as int)),
        decreases qs.len() - i,
    {
        let hs = qs[i].hashes();
        let ghost r0 = r@;
        let mut j: usize = 0;
        while j < hs.len()
            invariant
                j <= hs.len(),
                hs@ == qs@[i as int].hash_seq(),
                r@ == r0.union(hs@.subrange(0, j as int).to_set()),
            decreases hs.len() - j,
        {
            r.insert(hs[j]);
            proof {
                hs@.subrange(0, j as int).lemma_push_to_set_commute(hs@[j as int]);
                assert(hs@.subrange(0, j as int).push(hs@[j as int]) == hs@.subrange(0, j + 1));
            }
            j += 1;
        }
        assert(hs@.subrange(0, hs.len() as int) == hs@);
        assert(union_of(qs@.subrange(0, i + 1)) == union_of(qs@.subrange(0, i as int)).union(
            qs@[i as int].hash_set(),
        )) by {
            let a = qs@.subrange(0, i + 1);
            let b = qs@.subrange(0, i as int);
            assert forall|h: u64| union_of(a).contains(h) implies union_of(b).union(
                qs@[i as int].hash_set(),
            ).contains(h) by {
                let k = choose|k: int| 0 <= k < a.len() && #[trigger] a[k].hash_set().contains(h);
                if k < i {
                    assert(b[k] == a[k]);
                }
            }
            assert forall|h: u64| union_of(b).union(qs@[i as int].hash_set()).contains(h)
                implies union_of(a).contains(h) by {
                if union_of(b).contains(h) {
                    let k = choose|k: int| 0 <= k < b.len() && #[trigger] b[k].hash_set().contains(h);
                    assert(a[k] == b[k]);
                } else {
                    assert(a[i as int] == qs@[i as int]);
                }
            }
        }
        i += 1;
    }
    assert(qs@.subrange(0, qs.len() as int) == qs@);
    r
}

/// How many hashes of `hs` map to a set holding `d`, counted along the list.
pub open spec fn hits(m: Map<u64, Set<usize>>, hs: Seq<u64>, d: usize) -> nat
    decreases hs.len(),
{
    if hs.len() == 0 {
        0
    } else {
        hits(m, hs.drop_last(), d) + if m.contains_key(hs.last()) && m[hs.last()].contains(d) {
            1nat
        } else {
            0nat
        }
    }
}

/// The hashes of `s` that map to a set holding `d`.
pub open spec fn hashes_hitting(m: Map<u64, Set<usize>>, s: Set<u64>, d: usize) -> Set<u64> {
    s.filter(|h: u64| m.contains_key(h) && m[h].contains(d))
}

/// For each dataset, how many hashes of `s` map to it; datasets that no hash
/// of `s` reaches are absent.
pub open spec fn hit_counts(m: Map<u64, Set<usize>>, s: Set<u64>) -> Map<usize, usize> {
    Map::new(
        |d: usize| hashes_hitting(m, s, d).len() > 0,
        |d: usize| hashes_hitting(m, s, d).len() as usize,
    )
}

pub proof fn lemma_hits_card(m: Map<u64, Set<usize>>, hs: Seq<u64>, d: usize)
    requires
        hs.no_duplicates(),
    ensures
        hits(m, hs, d) == hashes_hitting(m, hs.to_set(), d).len(),
        hashes_hitting(m, hs.to_set(), d).finite(),
    decreases hs.len(),
{
    if hs.len() == 0 {
        assert(hs.to_set() =~= Set::<u64>::empty());
        assert(hashes_hitting(m, hs.to_set(), d) =~= Set::<u64>::empty());
    } else {
        let p = hs.drop_last();
        let x = hs.last();
        assert(p.no_duplicates()) by {
            assert forall|a: int, b: int| 0 <= a < b < p.len() implies p[a] != p[b] by {
                assert(p[a] == hs[a] && p[b] == hs[b]);
            }
        }
        lemma_hits_card(m, p, d);
        assert(hs == p.push(x));
        p.lemma_push_to_set_commute(x);
        assert(!p.to_set().contains(x)) by {
            if p.contains(x) {
                let k = choose|k: int| 0 <= k < p.len() && p[k] == x;
                assert(hs[k] == hs[hs.len() - 1]);
            }
        }
        let f = |h: u64| m.contains_key(h) && m[h].contains(d);
        if f(x) {
            assert(hashes_hitting(m, hs.to_set(), d) =~= hashes_hitting(m, p.to_set(), d).insert(x));
        } else {
            assert(hashes_hitting(m, hs.to_set(), d) =~= hashes_hitting(m, p.to_set(), d));
        }
    }
}

/// The count of `d` in `ids` when `ids` lists, for each hash of `hs` in
/// turn, the datasets that `m` gives it.
proof fn lemma_tally_hits(m: Map<u64, Set<usize>>, hs: Seq<u64>, ids: Seq<usize>)
    requires
        hs.no_duplicates(),
        forall|d: usize| ids.to_multiset().count(d) == #[trigger] hits(m, hs, d),
    ensures
        tally_map(ids) == hit_counts(m, hs.to_set()),
{
    assert forall|d: usize| #[trigger] ids.contains(d) <==> hashes_hitting(m, hs.to_set(), d).len() > 0 by {
        lemma_hits_card(m, hs, d);
        ids.to_multiset_ensures();
    }
    assert forall|d: usize| #[trigger] ids.contains(d) implies tally_map(ids)[d] == hit_counts(m, hs.to_set())[d] by {
        lemma_hits_card(m, hs, d);
    }
    assert(tally_map(ids) =~= hit_counts(m, hs.to_set()));
}

/// The entries of a counter whose count reaches `threshold`.
pub open spec fn at_least(m: Map<usize, usize>, threshold: usize) -> Map<usize, usize> {
    m.restrict(m.dom().filter(|d: usize| m[d] >= threshold))
}

/// The paths of the datasets of `s`, in order.
pub open spec fn paths_of(files: Seq<String>, s: Seq<(usize, usize)>) -> Seq<String> {
    s.map_values(|p: (usize, usize)| files[p.0 as int])
}

/// A search mode that the index does not offer.
#[derive(Debug, PartialEq, Eq)]
pub enum SearchError {
    /// Searching by similarity is not defined.
    Unsupported,
}

/// The reference of dataset `d` among the kept ones, if references are kept.
pub open spec fn fetched(refs: Option<Seq<ReferenceSketch>>, d: usize) -> Option<ReferenceSketch> {
    match refs {
        Some(rs) => if d < rs.len() {
            Some(rs[d as int])
        } else {
            None
        },
        None => None,
    }
}

/// A persisted index's entries can stand as an index over `n` datasets:
/// no hash twice, and each entry a valid list of identifiers.
pub open spec fn entries_valid(e: Seq<(u64, Vec<usize>)>, n: nat) -> bool {
    &&& forall|i: int, j: int| 0 <= i < j < e.len() ==> #[trigger] e[i].0 != #[trigger] e[j].0
    &&& forall|i: int| 0 <= i < e.len() ==> ids_ok(#[trigger] e[i].1@, n)
}

/// The mapping that a list of entries describes.
pub open spec fn entries_map(e: Seq<(u64, Vec<usize>)>) -> Map<u64, Set<usize>> {
    Map::new(
        |h: u64| exists|i: int| 0 <= i < e.len() && #[trigger] e[i].0 == h,
        |h: u64| e[choose|i: int| 0 <= i < e.len() && #[trigger] e[i].0 == h].1@.to_set(),
    )
}

/// An index was found malformed while loading.
#[derive(Debug, PartialEq, Eq)]
pub enum IndexError {
    /// A hash has two entries.
    DuplicateHash { hash: u64 },
    /// The entry of a hash is empty, repeats a dataset, or names a dataset
    /// that has no path.
    InvalidEntry { hash: u64 },
}

/// The inverted index: each hash of the references, with the datasets whose
/// sketches hold it. The keys are also kept in a list, in the order in which
/// they were first added, so that every walk over the index is deterministic.
pub struct RevIndex {
    hash_to_idx: HashMap<u64, Vec<usize>>,
    hash_keys: Vec<u64>,
    sig_files: Vec<String>,
    ref_sigs: Option<Vec<ReferenceSketch>>,
    template: SketchTemplate,
}

impl RevIndex {
    /// The mapping from each indexed hash to its set of datasets.
    pub closed spec fn index_view(&self) -> Map<u64, Set<usize>> {
        Map::new(|h: u64| self.hash_to_idx@.contains_key(h), |h: u64| self.hash_to_idx@[h]@.to_set())
    }

    /// The indexed hashes, in the order of the index.
    pub closed spec fn key_seq(&self) -> Seq<u64> {
        self.hash_keys@
    }

    /// The paths of the references; a dataset's identifier is its position.
    pub closed spec fn files(&self) -> Seq<String> {
        self.sig_files@
    }

    /// The loaded references, when they are kept in memory.
    pub closed spec fn refs(&self) -> Option<Seq<ReferenceSketch>> {
        match self.ref_sigs {
            Some(v) => Some(v@),
            None => None,
        }
    }

    pub closed spec fn template_spec(&self) -> SketchTemplate {
        self.template
    }

    pub closed spec fn inv(&self) -> bool {
        &&& keys_match(self.hash_to_idx@, self.hash_keys@)
        &&& forall|h: u64| #[trigger]
            self.hash_to_idx@.contains_key(h) ==> ids_ok(
                self.hash_to_idx@[h]@,
                self.sig_files@.len(),
            )
    }

    /// Every dataset of an entry is a position in `files` and no entry is
    /// empty; the kept references, if any, are one per file.
    pub open spec fn wf(&self) -> bool {
        &&& self.inv()
        &&& self.key_seq().no_duplicates()
        &&& self.key_seq().to_set() == self.index_view().dom()
        &&& forall|h: u64| #[trigger]
            self.index_view().contains_key(h) ==> !self.index_view()[h].is_empty() && forall|
                d: usize,
            | #[trigger] self.index_view()[h].contains(d) ==> d < self.files().len()
        &&& match self.refs() {
            Some(rs) => rs.len() == self.files().len() && forall|i: int|
                0 <= i < rs.len() ==> #[trigger] rs[i].wf(),
            None => true,
        }
    }

    proof fn lemma_wf(&self)
        requires
            self.inv(),
        ensures
            self.key_seq().no_duplicates(),
            self.key_seq().to_set() == self.index_view().dom(),
            forall|h: u64| #[trigger]
                self.index_view().contains_key(h) ==> !self.index_view()[h].is_empty() && forall|
                    d: usize,
                | #[trigger] self.index_view()[h].contains(d) ==> d < self.files().len(),
    {
        assert(self.key_seq().to_set() == self.index_view().dom());
        assert forall|h: u64| #[trigger] self.index_view().contains_key(h) implies !self.index_view()[h].is_empty()
            && forall|d: usize| #[trigger] self.index_view()[h].contains(d) ==> d < self.files().len() by {
            let v = self.hash_to_idx@[h]@;
            assert(v.to_set().contains(v[0]));
            assert forall|d: usize| #[trigger] self.index_view()[h].contains(d) implies d < self.files().len() by {
                let k = choose|k: int| 0 <= k < v.len() && v[k] == d;
            }
        }
    }

    /// Builds the index over `refs`, the loaded references of the paths
    /// `search_sigs` (a dataset's identifier is its position). A reference
    /// without a compatible sketch adds nothing. With `queries`, only the
    /// hashes that some query holds are indexed: each reference is matched
    /// once against the union of the queries. A shared hash is kept whatever
    /// the size of the overlap, so the threshold does not change the result.
    /// With `keep_sigs` the references stay in memory for `gather`.
    pub fn new(
        search_sigs: Vec<String>,
        refs: Vec<ReferenceSketch>,
        template: SketchTemplate,
        _threshold: usize,
        queries: Option<&Vec<MinHashSketch>>,
        keep_sigs: bool,
    ) -> (r: RevIndex)
        requires
            refs.len() == search_sigs.len(),
            forall|i: int| 0 <= i < refs.len() ==> #[trigger] refs@[i].wf(),
            queries matches Some(qs) ==> forall|i: int| 0 <= i < qs.len() ==> #[trigger] qs@[i].wf(),
        ensures
            r.wf(),
            r.index_view() == build_view(
                refs@,
                match queries {
                    Some(qs) => Some(qs@),
                    None => None,
                },
            ),
            r.files() == search_sigs@,
            r.refs() == (if keep_sigs {
                Some(refs@)
            } else {
                None
            }),
            r.template_spec() == template,
    {
        let ghost qv = match queries {
            Some(qs) => Some(qs@),
            None => None,
        };
        let filter: Option<HashSet<u64>> = match queries {
            Some(qs) => Some(union_hashes(qs)),
            None => None,
        };
        assert(filter_view(&filter) == query_filter(qv));
        let mut map: HashMap<u64, Vec<usize>> = HashMap::new();
        let mut keys: Vec<u64> = Vec::new();
        assert(keys@.to_set() =~= map@.dom());
        let mut d: usize = 0;
        while d < refs.len()
            invariant
                d <= refs.len(),
                refs.len() == search_sigs.len(),
                forall|i: int| 0 <= i < refs.len() ==> #[trigger] refs@[i].wf(),
                filter_view(&filter) == query_filter(qv),
                keys_match(map@, keys@),
                forall|h: u64| #[trigger] map@.contains_key(h) ==> ids_ok(map@[h]@, d as nat),
                forall|h: u64| #[trigger]
                    map@.contains_key(h) <==> exists|e: int|
                        0 <= e < d && #[trigger] kept_hashes(refs@[e], qv).contains(h),
                forall|h: u64| #[trigger]
                    ids_at(map@, h) == Set::new(
                        |e: usize| e < d && kept_hashes(refs@[e as int], qv).contains(h),
                    ),
            decreases refs.len() - d,
        {
            let ghost m0 = map@;
            match &refs[d].minhash {
                Some(mh) => {
                    assert(refs@[d as int].wf());
                    assert(mh.wf());
                    add_dataset(&mut map, &mut keys, d, mh.hashes(), &filter);
                    assert(mh.hash_set() == mh.hash_seq().to_set());
                },
                None => {
                    assert forall|h: u64| #[trigger] map@.contains_key(h) implies ids_ok(map@[h]@, (d + 1) as nat) by {
                        let v = map@[h]@;
                        assert forall|i: int| 0 <= i < v.len() implies v[i] < d + 1 by {}
                    }
                },
            }
            assert forall|h: u64| #[trigger] map@.contains_key(h) <==> exists|e: int|
                0 <= e < d + 1 && #[trigger] kept_hashes(refs@[e], qv).contains(h) by {
                if kept_hashes(refs@[d as int], qv).contains(h) {
                    assert(map@.contains_key(h));
                }
            }
            assert forall|h: u64| #[trigger] ids_at(map@, h) == Set::new(
                |e: usize| e < d + 1 && kept_hashes(refs@[e as int], qv).contains(h),
            ) by {
                assert(ids_at(map@, h) =~= Set::new(
                    |e: usize| e < d + 1 && kept_hashes(refs@[e as int], qv).contains(h),
                ));
            }
            d += 1;
        }
        let ref_sigs = if keep_sigs {
            Some(refs)
        } else {
            None
        };
        let r = RevIndex { hash_to_idx: map, hash_keys: keys, sig_files: search_sigs, ref_sigs, template };
        assert(r.index_view() =~= build_view(refs@, qv)) by {
            assert forall|h: u64| r.index_view().contains_key(h) implies r.index_view()[h] == build_view(refs@, qv)[h] by {
                assert(ids_at(map@, h) == r.index_view()[h]);
                assert(r.index_view()[h] =~= build_view(refs@, qv)[h]);
            }
        }
        proof { r.lemma_wf(); }
        r
    }

    /// Lists, for each hash of `hs` in turn, the datasets the index gives it.
    fn collect_ids(&self, hs: &Vec<u64>) -> (ids: Vec<usize>)
        requires
            self.wf(),
        ensures
            forall|d: usize| ids@.to_multiset().count(d) == #[trigger] hits(self.index_view(), hs@, d),
    {
        let ghost m = self.index_view();
        let mut ids: Vec<usize> = Vec::new();
        let mut i: usize = 0;
        proof {
            assert forall|d: usize| ids@.to_multiset().count(d) == #[trigger] hits(m, hs@.subrange(0, 0), d) by {
                ids@.to_multiset_ensures();
            }
        }
        while i < hs.len()
            invariant
                i <= hs.len(),
                self.wf(),
                m == self.index_view(),
                forall|d: usize| ids@.to_multiset().count(d) == #[trigger] hits(m, hs@.subrange(0, i as int), d),
            decreases hs.len() - i,
        {
            let h = hs[i];
            let ghost ids0 = ids@;
            assert(hs@.subrange(0, i + 1).drop_last() == hs@.subrange(0, i as int));
            match self.hash_to_idx.get(&h) {
                Some(v) => {
                    assert(self.hash_to_idx@.contains_key(h));
                    assert(v@.no_duplicates());
                    let mut k: usize = 0;
                    while k < v.len()
                        invariant
                            k <= v.len(),
                            v@.no_duplicates(),
                            forall|d: usize| ids@.to_multiset().count(d) == #[trigger] ids0.to_multiset().count(d)
                                + if v@.subrange(0, k as int).contains(d) { 1nat } else { 0nat },
                        decreases v.len() - k,
                    {
                        let ghost before = ids@;
                        ids.push(v[k]);
                        proof {
                            before.to_multiset_ensures();
                            assert(v@.subrange(0, k + 1) == v@.subrange(0, k as int).push(v@[k as int]));
                            assert forall|d: usize| ids@.to_multiset().count(d) == #[trigger] ids0.to_multiset().count(d)
                                + if v@.subrange(0, k + 1).contains(d) { 1nat } else { 0nat } by {
                                if d == v@[k as int] {
                                    assert(v@.subrange(0, k + 1)[k as int] == d);
                                    assert(!v@.subrange(0, k as int).contains(d)) by {
                                        if v@.subrange(0, k as int).contains(d) {
                                            let j = choose|j: int| 0 <= j < k && v@.subrange(0, k as int)[j] == d;
                                            assert(v@[j] == v@[k as int]);
                                        }
                                    }
                                } else {
                                    assert(v@.subrange(0, k + 1).contains(d) <==> v@.subrange(0, k as int).contains(d));
                                }
                            }
                        }
                        k += 1;
                    }
                    assert(v@.subrange(0, v.len() as int) == v@);
                    assert forall|d: usize| ids@.to_multiset().count(d) == #[trigger] hits(m, hs@.subrange(0, i + 1), d) by {
                        assert(hs@.subrange(0, i + 1).last() == h);
                        assert(m.contains_key(h));
                        assert(m[h] == v@.to_set());
                        assert(m[h].contains(d) <==> v@.contains(d));
                        assert(hits(m, hs@.subrange(0, i + 1), d) == hits(m, hs@.subrange(0, i as int), d) + (
                        if m.contains_key(h) && m[h].contains(d) { 1nat } else { 0nat }));
                    }
                },
                None => {
                    assert forall|d: usize| ids@.to_multiset().count(d) == #[trigger] hits(m, hs@.subrange(0, i + 1), d) by {
                        assert(hs@.subrange(0, i + 1).last() == h);
                        assert(!m.contains_key(h));
                        assert(hits(m, hs@.subrange(0, i + 1), d) == hits(m, hs@.subrange(0, i as int), d));
                        assert(ids@ == ids0);
                    }
                },
            }
            i += 1;
        }
        assert(hs@.subrange(0, hs.len() as int) == hs@);
        ids
    }

    /// Counts, for each dataset, the hashes of `query` that the index maps
    /// to it. Datasets that no hash of the query reaches are absent.
    pub fn counter_for_query(&self, query: &MinHashSketch) -> (r: SigCounter)
        requires
            self.wf(),
            query.wf(),
        ensures
            counts_of(r) == hit_counts(self.index_view(), query.hash_set()),
    {
        let ids = self.collect_ids(query.hashes());
        proof { lemma_tally_hits(self.index_view(), query.hash_seq(), ids@); }
        tally(ids)
    }

    /// Counts, for each dataset, the indexed hashes that map to it.
    pub fn counter(&self) -> (r: SigCounter)
        requires
            self.wf(),
        ensures
            counts_of(r) == hit_counts(self.index_view(), self.index_view().dom()),
    {
        let ids = self.collect_ids(&self.hash_keys);
        proof { lemma_tally_hits(self.index_view(), self.key_seq(), ids@); }
        tally(ids)
    }

    /// The paths of the datasets whose count reaches `threshold`, larger
    /// counts first and equal counts by identifier. Similarity search is
    /// not defined and gives `Unsupported`.
    pub fn search(&self, counter: SigCounter, similarity: bool, threshold: usize) -> (r: Result<
        Vec<String>,
        SearchError,
    >)
        requires
            self.wf(),
            forall|d: usize| #[trigger] counts_of(counter).contains_key(d) ==> d < self.files().len(),
        ensures
            similarity ==> r == Err::<Vec<String>, SearchError>(SearchError::Unsupported),
            !similarity ==> (r matches Ok(v) && exists|s: Seq<(usize, usize)>|
                is_ranking(at_least(counts_of(counter), threshold), s) && v@ == paths_of(
                    self.files(),
                    s,
                )),
    {
        if similarity {
            return Err(SearchError::Unsupported);
        }
        let ghost m = counts_of(counter);
        let ranked = ranking(&counter);
        let mut matches: Vec<String> = Vec::new();
        let mut i: usize = 0;
        while i < ranked.len()
            invariant
                i <= ranked.len(),
                is_ranking(m, ranked@),
                forall|d: usize| #[trigger] m.contains_key(d) ==> d < self.sig_files@.len(),
                forall|j: int| 0 <= j < i ==> #[trigger] ranked@[j].1 >= threshold,
                matches@ == paths_of(self.files(), ranked@.subrange(0, i as int)),
            ensures
                i <= ranked.len(),
                forall|j: int| 0 <= j < i ==> #[trigger] ranked@[j].1 >= threshold,
                matches@ == paths_of(self.files(), ranked@.subrange(0, i as int)),
                i == ranked.len() || ranked@[i as int].1 < threshold,
            decreases ranked.len() - i,
        {
            let (d, n) = ranked[i];
            if n < threshold {
                break;
            }
            assert(m.contains_key(ranked@[i as int].0));
            matches.push(self.sig_files[d].clone());
            assert(paths_of(self.files(), ranked@.subrange(0, i + 1)) =~= paths_of(
                self.files(),
                ranked@.subrange(0, i as int),
            ).push(self.files()[d as int]));
            i += 1;
        }
        let ghost s = ranked@.subrange(0, i as int);
        let ghost am = at_least(m, threshold);
        assert(is_ranking(am, s)) by {
            assert forall|j: int| 0 <= j < s.len() implies #[trigger] am.contains_key(s[j].0) && am[s[j].0] == s[j].1 by {
                assert(s[j] == ranked@[j]);
                assert(m.contains_key(ranked@[j].0));
            }
            assert forall|d: usize| #[trigger] am.contains_key(d) implies exists|j: int| 0 <= j < s.len() && s[j].0 == d by {
                let k = choose|k: int| 0 <= k < ranked@.len() && ranked@[k].0 == d;
                if k >= i {
                    assert(i < ranked@.len());
                    assert(ranked@[i as int].1 < threshold);
                    if k > i {
                        assert(precedes(ranked@[i as int], ranked@[k]));
                    }
                    assert(m[d] == ranked@[k].1);
                }
                assert(s[k].0 == d);
            }
            assert forall|a: int, b: int| 0 <= a < b < s.len() implies precedes(#[trigger] s[a], #[trigger] s[b]) by {
                assert(s[a] == ranked@[a] && s[b] == ranked@[b]);
            }
        }
        Ok(matches)
    }

    /// The datasets that the index gives hash `h`.
    pub fn ids_of(&self, h: u64) -> (r: Option<&Vec<usize>>)
        requires
            self.wf(),
        ensures
            r is None <==> !self.index_view().contains_key(h),
            r matches Some(v) ==> v@.to_set() == self.index_view()[h] && v@.no_duplicates(),
    {
        self.hash_to_idx.get(&h)
    }

    /// The loaded reference of dataset `d`, when references are kept.
    pub fn reference(&self, d: usize) -> (r: Option<&ReferenceSketch>)
        ensures
            r is None <==> fetched(self.refs(), d) is None,
            r matches Some(x) ==> fetched(self.refs(), d) == Some(*x),
    {
        match &self.ref_sigs {
            Some(v) => {
                if d < v.len() {
                    Some(&v[d])
                } else {
                    None
                }
            },
            None => None,
        }
    }

    /// The path of dataset `d`.
    pub fn file(&self, d: usize) -> (r: &String)
        requires
            d < self.files().len(),
        ensures
            *r == self.files()[d as int],
    {
        &self.sig_files[d]
    }

    /// The paths of the references, by dataset identifier.
    pub fn sig_files(&self) -> (r: &Vec<String>)
        ensures
            r@ == self.files(),
    {
        &self.sig_files
    }

    /// The template that the index was built with.
    pub fn template(&self) -> (r: SketchTemplate)
        ensures
            r == self.template_spec(),
    {
        self.template.clone()
    }

    /// The entries of the index, one per hash in the index's order, each
    /// with its datasets: the form in which an index is persisted.
    pub fn entries(&self) -> (r: Vec<(u64, Vec<usize>)>)
        requires
            self.wf(),
        ensures
            r@.len() == self.key_seq().len(),
            forall|i: int| 0 <= i < r@.len() ==> (#[trigger] r@[i]).0 == self.key_seq()[i],
            entries_valid(r@, self.files().len()),
            entries_map(r@) == self.index_view(),
    {
        let mut r: Vec<(u64, Vec<usize>)> = Vec::new();
        let mut i: usize = 0;
        while i < self.hash_keys.len()
            invariant
                i <= self.hash_keys.len(),
                self.inv(),
                r@.len() == i,
                forall|j: int| 0 <= j < i ==> (#[trigger] r@[j]).0 == self.hash_keys@[j] && r@[j].1@
                    == self.hash_to_idx@[self.hash_keys@[j]]@,
            decreases self.hash_keys.len() - i,
        {
            let h = self.hash_keys[i];
            assert(self.hash_keys@.to_set().contains(h));
            let v = self.hash_to_idx.get(&h).unwrap();
            let mut c: Vec<usize> = Vec::new();
            let mut k: usize = 0;
            while k < v.len()
                invariant
                    k <= v.len(),
                    c@ == v@.subrange(0, k as int),
                decreases v.len() - k,
            {
                c.push(v[k]);
                assert(v@.subrange(0, k + 1) == v@.subrange(0, k as int).push(v@[k as int]));
                k += 1;
            }
            assert(v@.subrange(0, v.len() as int) == v@);
            r.push((h, c));
            i += 1;
        }
        proof {
            assert forall|a: int, b: int| 0 <= a < b < r@.len() implies #[trigger] r@[a].0 != #[trigger] r@[b].0 by {
                assert(self.hash_keys@[a] != self.hash_keys@[b]);
            }
            assert forall|a: int| 0 <= a < r@.len() implies ids_ok(#[trigger] r@[a].1@, self.files().len()) by {
                assert(self.hash_keys@.to_set().contains(self.hash_keys@[a]));
            }
            assert(entries_map(r@) =~= self.index_view()) by {
                assert forall|h: u64| #[trigger] entries_map(r@).contains_key(h) <==> self.index_view().contains_key(h) by {
                    if self.index_view().contains_key(h) {
                        assert(self.hash_keys@.to_set().contains(h));
                        let j = choose|j: int| 0 <= j < self.hash_keys@.len() && self.hash_keys@[j] == h;
                        assert(r@[j].0 == h);
                    }
                    if entries_map(r@).contains_key(h) {
                        let j = choose|j: int| 0 <= j < r@.len() && #[trigger] r@[j].0 == h;
                        assert(self.hash_keys@.to_set().contains(self.hash_keys@[j]));
                    }
                }
                assert forall|h: u64| #[trigger] entries_map(r@).contains_key(h) implies entries_map(r@)[h] == self.index_view()[h] by {
                    let j = choose|j: int| 0 <= j < r@.len() && #[trigger] r@[j].0 == h;
                    assert(r@[j].0 == h);
                }
            }
        }
        r
    }

    /// Rebuilds a persisted index from its entries, its paths and its
    /// template. With `queries`, only the hashes that some query holds are
    /// kept. Fails when the entries cannot stand as an index over the paths,
    /// naming the hash of the first entry, in order, that is at fault.
    pub fn load(
        entries: Vec<(u64, Vec<usize>)>,
        sig_files: Vec<String>,
        template: SketchTemplate,
        queries: Option<&Vec<MinHashSketch>>,
    ) -> (r: Result<RevIndex, IndexError>)
        requires
            queries matches Some(qs) ==> forall|i: int| 0 <= i < qs.len() ==> #[trigger] qs@[i].wf(),
        ensures
            r is Ok <==> entries_valid(entries@, sig_files@.len()),
            r matches Err(IndexError::DuplicateHash { hash }) ==> exists|i: int, j: int|
                0 <= i < j < entries@.len() && entries@[i].0 == hash && entries@[j].0 == hash,
            r matches Err(IndexError::InvalidEntry { hash }) ==> exists|i: int|
                0 <= i < entries@.len() && entries@[i].0 == hash && !ids_ok(entries@[i].1@, sig_files@.len()),
            r matches Ok(idx) ==> {
                &&& idx.wf()
                &&& idx.index_view() == match queries {
                    Some(qs) => entries_map(entries@).restrict(union_of(qs@)),
                    None => entries_map(entries@),
                }
                &&& idx.files() == sig_files@
                &&& idx.refs() is None
                &&& idx.template_spec() == template
            },
    {
        let ghost qv = match queries {
            Some(qs) => Some(qs@),
            None => None,
        };
        let filter: Option<HashSet<u64>> = match queries {
            Some(qs) => Some(union_hashes(qs)),
            None => None,
        };
        let n = sig_files.len();
        let ghost e = entries@;
        let mut seen: HashSet<u64> = HashSet::new();
        let mut map: HashMap<u64, Vec<usize>> = HashMap::new();
        let mut keys: Vec<u64> = Vec::new();
        assert(keys@.to_set() =~= map@.dom());
        let mut i: usize = 0;
        while i < entries.len()
            invariant
                i <= entries.len(),
                e == entries@,
                n == sig_files@.len(),
                filter_view(&filter) == query_filter(qv),
                entries_valid(e.subrange(0, i as int), n as nat),
                forall|h: u64| #[trigger] seen@.contains(h) <==> exists|j: int| 0 <= j < i && #[trigger] e[j].0 == h,
                keys_match(map@, keys@),
                forall|h: u64| #[trigger] map@.contains_key(h) <==> seen@.contains(h) && passes(query_filter(qv), h),
                forall|j: int| 0 <= j < i && passes(query_filter(qv), e[j].0) ==> #[trigger] map@[e[j].0]@ == e[j].1@,
                forall|h: u64| #[trigger] map@.contains_key(h) ==> ids_ok(map@[h]@, n as nat),
            decreases entries.len() - i,
        {
            let h = entries[i].0;
            if seen.contains(&h) {
                proof {
                    let j = choose|j: int| 0 <= j < i && #[trigger] e[j].0 == h;
                    assert(e[j].0 == e[i as int].0);
                }
                return Err(IndexError::DuplicateHash { hash: h });
            }
            if !valid_ids(&entries[i].1, n) {
                return Err(IndexError::InvalidEntry { hash: h });
            }
            let ghost kb = keys@;
            let ghost mb = map@;
            seen.insert(h);
            if passes_filter(&filter, h) {
                map.insert(h, copy_ids(&entries[i].1));
                keys.push(h);
                proof {
                    assert(!kb.contains(h)) by {
                        assert(!mb.dom().contains(h));
                    }
                    kb.lemma_push_to_set_commute(h);
                    assert(map@.dom() == mb.dom().insert(h));
                    assert forall|a: int, b: int| 0 <= a < b < keys@.len() implies keys@[a] != keys@[b] by {
                        if b == kb.len() {
                            assert(kb.contains(kb[a]));
                        } else {
                            assert(kb[a] != kb[b]);
                        }
                    }
                }
            }
            proof {
                let e2 = e.subrange(0, i + 1);
                assert forall|a: int, b: int| 0 <= a < b < e2.len() implies #[trigger] e2[a].0 != #[trigger] e2[b].0 by {
                    if b == i {
                        assert(e2[a] == e[a]);
                    } else {
                        assert(e.subrange(0, i as int)[a] == e2[a]);
                        assert(e.subrange(0, i as int)[b] == e2[b]);
                    }
                }
                assert forall|a: int| 0 <= a < e2.len() implies ids_ok(#[trigger] e2[a].1@, n as nat) by {
                    if a < i {
                        assert(e.subrange(0, i as int)[a] == e2[a]);
                    }
                }
            }
            i += 1;
        }
        let r = RevIndex { hash_to_idx: map, hash_keys: keys, sig_files, ref_sigs: None, template };
        proof {
            assert(e.subrange(0, e.len() as int) == e);
            let target = match queries {
                Some(qs) => entries_map(e).restrict(union_of(qs@)),
                None => entries_map(e),
            };
            assert(r.index_view() =~= target) by {
                assert forall|h: u64| #[trigger] r.index_view().contains_key(h) <==> target.contains_key(h) by {}
                assert forall|h: u64| #[trigger] r.index_view().contains_key(h) implies r.index_view()[h] == target[h] by {
                    let j = choose|j: int| 0 <= j < e.len() && #[trigger] e[j].0 == h;
                    assert(entries_map(e).contains_key(h));
                    let k = choose|k: int| 0 <= k < e.len() && #[trigger] e[k].0 == h;
                    assert(j == k);
                }
            }
            r.lemma_wf();
        }
        Ok(r)
    }

    /// Whether the references are kept in memory.
    pub fn references_kept(&self) -> (r: bool)
        ensures
            r == self.refs() is Some,
    {
        self.ref_sigs.is_some()
    }

    /// Keeps `refs`, the loaded references of the index's paths, in memory
    /// for `gather`.
    pub fn preload(&mut self, refs: Vec<ReferenceSketch>)
        requires
            old(self).wf(),
            refs.len() == old(self).files().len(),
            forall|i: int| 0 <= i < refs.len() ==> #[trigger] refs@[i].wf(),
        ensures
            final(self).wf(),
            final(self).refs() == Some(refs@),
            final(self).index_view() == old(self).index_view(),
            final(self).key_seq() == old(self).key_seq(),
            final(self).files() == old(self).files(),
            final(self).template_spec() == old(self).template_spec(),
    {
        self.ref_sigs = Some(refs);
        proof { self.lemma_wf(); }
    }

    /// An index over the paths `sig_files` from a map and its list of keys.
    pub(crate) fn assemble(
        hash_to_idx: HashMap<u64, Vec<usize>>,
        hash_keys: Vec<u64>,
        sig_files: Vec<String>,
        template: SketchTemplate,
    ) -> (r: RevIndex)
        requires
            keys_match(hash_to_idx@, hash_keys@),
            forall|h: u64| #[trigger] hash_to_idx@.contains_key(h) ==> ids_ok(hash_to_idx@[h]@, sig_files@.len()),
        ensures
            r.wf(),
            r.index_view() == Map::new(|h: u64| hash_to_idx@.contains_key(h), |h: u64| hash_to_idx@[h]@.to_set()),
            r.key_seq() == hash_keys@,
            r.files() == sig_files@,
            r.refs() is None,
            r.template_spec() == template,
    {
        let r = RevIndex { hash_to_idx, hash_keys, sig_files, ref_sigs: None, template };
        proof { r.lemma_wf(); }
        r
    }
}

} // verus!
