use std::collections::{HashMap, HashSet};
use vstd::prelude::*;

use crate::revindex::{
    add_dataset, copy_ids, filter_view, ids_at, ids_ok, keys_match, passes, ref_hashes,
    ReferenceSketch, RevIndex,
};
use crate::sketch::SketchTemplate;

verus! {

broadcast use vstd::std_specs::hash::group_hash_axioms;

/// The datasets that a mapping gives a hash, empty when it has no entry.
pub open spec fn set_at(m: Map<u64, Set<usize>>, h: u64) -> Set<usize> {
    if m.contains_key(h) {
        m[h]
    } else {
        Set::empty()
    }
}

/// Two mappings merged: every hash of either, with the union of its sets.
pub open spec fn union_merge(a: Map<u64, Set<usize>>, b: Map<u64, Set<usize>>) -> Map<u64, Set<usize>> {
    Map::new(|h: u64| a.contains_key(h) || b.contains_key(h), |h: u64| set_at(a, h).union(set_at(b, h)))
}

/// What dataset `d` alone contributes: each of its hashes that passes
/// `filter`, mapped to `{d}`.
pub open spec fn dataset_view(d: usize, r: ReferenceSketch, filter: Option<Set<u64>>) -> Map<u64, Set<usize>> {
    Map::new(|h: u64| ref_hashes(r).contains(h) && passes(filter, h), |h: u64| set![d])
}

/// A part of an index under construction: some hashes, each with the
/// datasets that hold it. Parts are built per dataset and merged.
pub struct PartialIndex {
    hash_to_idx: HashMap<u64, Vec<usize>>,
    hash_keys: Vec<u64>,
    bound: usize,
}

impl PartialIndex {
    /// The mapping that the part holds.
    pub closed spec fn view_map(&self) -> Map<u64, Set<usize>> {
        Map::new(|h: u64| self.hash_to_idx@.contains_key(h), |h: u64| self.hash_to_idx@[h]@.to_set())
    }

    /// The hashes of the part, in the order in which they were added.
    pub closed spec fn key_seq(&self) -> Seq<u64> {
        self.hash_keys@
    }

    /// Every dataset of the part is below this bound.
    pub closed spec fn bound_spec(&self) -> usize {
        self.bound
    }

    /// Keys listed once each, and no entry empty or with a repeated dataset.
    pub closed spec fn wf(&self) -> bool {
        &&& keys_match(self.hash_to_idx@, self.hash_keys@)
        &&& forall|h: u64| #[trigger]
            self.hash_to_idx@.contains_key(h) ==> ids_ok(self.hash_to_idx@[h]@, self.bound as nat)
    }

    /// The bound on the datasets of the part.
    pub fn bound(&self) -> (r: usize)
        ensures
            r == self.bound_spec(),
    {
        self.bound
    }

    /// The part with no hash.
    pub fn empty() -> (r: Self)
        ensures
            r.wf(),
            r.view_map() == Map::<u64, Set<usize>>::empty(),
    {
        let r = PartialIndex { hash_to_idx: HashMap::new(), hash_keys: Vec::new(), bound: 0 };
        assert(r.hash_keys@.to_set() =~= r.hash_to_idx@.dom());
        assert(r.view_map() =~= Map::<u64, Set<usize>>::empty());
        r
    }

    /// The part that dataset `d` contributes: its hashes that pass `filter`.
    pub fn for_dataset(d: usize, r: &ReferenceSketch, filter: &Option<HashSet<u64>>) -> (p: Self)
        requires
            r.wf(),
            d < usize::MAX,
        ensures
            p.wf(),
            p.bound_spec() == d + 1,
            p.view_map() == dataset_view(d, *r, filter_view(filter)),
    {
        let mut map: HashMap<u64, Vec<usize>> = HashMap::new();
        let mut keys: Vec<u64> = Vec::new();
        assert(keys@.to_set() =~= map@.dom());
        match &r.minhash {
            Some(mh) => {
                add_dataset(&mut map, &mut keys, d, mh.hashes(), filter);
                assert(mh.hash_set() == mh.hash_seq().to_set());
            },
            None => {},
        }
        let p = PartialIndex { hash_to_idx: map, hash_keys: keys, bound: d + 1 };
        assert(p.view_map() =~= dataset_view(d, *r, filter_view(filter))) by {
            assert forall|h: u64| #[trigger] p.view_map().contains_key(h) implies p.view_map()[h]
                == dataset_view(d, *r, filter_view(filter))[h] by {
                assert(ids_at(map@, h) == p.view_map()[h]);
                assert(p.view_map()[h] =~= set![d]);
            }
        }
        p
    }

    /// The number of hashes of the part.
    pub fn len(&self) -> (r: usize)
        requires
            self.wf(),
        ensures
            r == self.view_map().dom().len(),
    {
        proof {
            self.hash_keys@.unique_seq_to_set();
            assert(self.view_map().dom() == self.hash_keys@.to_set());
        }
        self.hash_keys.len()
    }

    /// Merges two parts: the smaller is folded into the larger, and the
    /// sets of a hash that both hold are joined.
    pub fn merge(a: PartialIndex, b: PartialIndex) -> (r: PartialIndex)
        requires
            a.wf(),
            b.wf(),
        ensures
            r.wf(),
            r.view_map() == union_merge(a.view_map(), b.view_map()),
            r.bound_spec() == if a.bound_spec() >= b.bound_spec() {
                a.bound_spec()
            } else {
                b.bound_spec()
            },
    {
        let bound = if a.bound >= b.bound {
            a.bound
        } else {
            b.bound
        };
        let ghost av = a.view_map();
        let ghost bv = b.view_map();
        let (small, mut large) = if a.hash_keys.len() > b.hash_keys.len() {
            (b, a)
        } else {
            (a, b)
        };
        let ghost l0 = large.view_map();
        let ghost sv = small.view_map();
        let ghost sb = small.bound;
        let ghost lb = large.bound;
        large.bound = bound;
        assert forall|h: u64| #[trigger] small.hash_to_idx@.contains_key(h) implies ids_ok(small.hash_to_idx@[h]@, bound as nat) by {
            let v = small.hash_to_idx@[h]@;
            assert(ids_ok(v, sb as nat));
            assert forall|j: int| 0 <= j < v.len() implies v[j] < bound by {}
        }
        assert forall|h: u64| #[trigger] large.hash_to_idx@.contains_key(h) implies ids_ok(large.hash_to_idx@[h]@, bound as nat) by {
            let v = large.hash_to_idx@[h]@;
            assert(ids_ok(v, lb as nat));
            assert forall|j: int| 0 <= j < v.len() implies v[j] < bound by {}
        }
        assert(union_merge(l0, sv) == union_merge(av, bv)) by {
            assert((l0 == av && sv == bv) || (l0 == bv && sv == av));
            assert(union_merge(bv, av) =~= union_merge(av, bv)) by {
                assert forall|h: u64| #[trigger] union_merge(bv, av).contains_key(h) implies union_merge(bv, av)[h]
                    == union_merge(av, bv)[h] by {
                    assert(union_merge(bv, av)[h] =~= union_merge(av, bv)[h]);
                }
            }
        }
        let mut i: usize = 0;
        assert forall|h: u64| #[trigger] large.view_map().contains_key(h) <==> l0.contains_key(h)
            || small.hash_keys@.subrange(0, 0).to_set().contains(h) by {}
        assert forall|h: u64| #[trigger] ids_at(large.hash_to_idx@, h) == set_at(l0, h).union(
            if small.hash_keys@.subrange(0, 0).to_set().contains(h) { set_at(sv, h) } else { Set::empty() },
        ) by {
            assert(set_at(l0, h).union(Set::empty()) =~= set_at(l0, h));
        }
        while i < small.hash_keys.len()
            invariant
                i <= small.hash_keys.len(),
                small.wf(),
                large.wf(),
                large.bound == bound,
                forall|h: u64| #[trigger] small.hash_to_idx@.contains_key(h) ==> ids_ok(small.hash_to_idx@[h]@, bound as nat),
                sv == small.view_map(),
                forall|h: u64| #[trigger] large.view_map().contains_key(h) <==> l0.contains_key(h)
                    || small.hash_keys@.subrange(0, i as int).to_set().contains(h),
                forall|h: u64| #[trigger] ids_at(large.hash_to_idx@, h) == set_at(l0, h).union(
                    if small.hash_keys@.subrange(0, i as int).to_set().contains(h) { set_at(sv, h) } else { Set::empty() },
                ),
            decreases small.hash_keys.len() - i,
        {
            let h = small.hash_keys[i];
            let ghost pre = small.hash_keys@.subrange(0, i as int);
            assert(small.hash_keys@.subrange(0, i + 1) == pre.push(h));
            proof { pre.lemma_push_to_set_commute(h); }
            assert(!pre.to_set().contains(h)) by {
                if pre.contains(h) {
                    let k = choose|k: int| 0 <= k < pre.len() && pre[k] == h;
                    assert(small.hash_keys@[k] == small.hash_keys@[i as int]);
                }
            }
            assert(small.hash_keys@.to_set().contains(h));
            let v = small.hash_to_idx.get(&h).unwrap();
            let ghost mb = large.hash_to_idx@;
            let ghost kb = large.hash_keys@;
            let ghost vb = large.view_map();
            match large.hash_to_idx.remove(&h) {
                Some(w) => {
                    let mut w = w;
                    union_into(&mut w, v, bound);
                    large.hash_to_idx.insert(h, w);
                    assert(large.hash_to_idx@.dom() == mb.dom());
                },
                None => {
                    let c = copy_ids(v);
                    large.hash_to_idx.insert(h, c);
                    large.hash_keys.push(h);
                    proof {
                        assert(!kb.contains(h)) by {
                            assert(!mb.dom().contains(h));
                        }
                        kb.lemma_push_to_set_commute(h);
                        assert(large.hash_to_idx@.dom() == mb.dom().insert(h));
                        assert forall|x: int, y: int| 0 <= x < y < large.hash_keys@.len() implies large.hash_keys@[x]
                            != large.hash_keys@[y] by {
                            if y == kb.len() {
                                assert(kb.contains(kb[x]));
                            } else {
                                assert(kb[x] != kb[y]);
                            }
                        }
                    }
                },
            }
            assert forall|x: u64| #[trigger] large.view_map().contains_key(x) <==> l0.contains_key(x)
                || small.hash_keys@.subrange(0, i + 1).to_set().contains(x) by {
                assert(large.view_map().contains_key(x) == large.hash_to_idx@.contains_key(x));
                assert(small.hash_keys@.subrange(0, i + 1).to_set() == pre.to_set().insert(h));
                if x != h {
                    assert(large.hash_to_idx@.contains_key(x) == mb.contains_key(x));
                    assert(vb.contains_key(x) == mb.contains_key(x));
                    assert(vb.contains_key(x) <==> l0.contains_key(x) || pre.to_set().contains(x));
                } else {
                    assert(large.hash_to_idx@.contains_key(h));
                }
            }
            assert forall|x: u64| #[trigger] ids_at(large.hash_to_idx@, x) == set_at(l0, x).union(
                if small.hash_keys@.subrange(0, i + 1).to_set().contains(x) { set_at(sv, x) } else { Set::empty() },
            ) by {
                if x != h {
                    assert(ids_at(large.hash_to_idx@, x) == ids_at(mb, x));
                } else {
                    assert(sv.contains_key(h));
                    assert(set_at(sv, h) == v@.to_set());
                    assert(ids_at(mb, h) == set_at(l0, h));
                    assert(ids_at(large.hash_to_idx@, h) =~= set_at(l0, h).union(set_at(sv, h)));
                }
            }
            i += 1;
        }
        assert(small.hash_keys@.subrange(0, small.hash_keys.len() as int) == small.hash_keys@);
        assert(large.view_map() =~= union_merge(l0, sv)) by {
            assert forall|h: u64| #[trigger] large.view_map().contains_key(h) implies large.view_map()[h]
                == union_merge(l0, sv)[h] by {
                assert(ids_at(large.hash_to_idx@, h) == large.view_map()[h]);
            }
        }
        large
    }
}

impl RevIndex {
    /// The index that a merged part gives over the paths `search_sigs`;
    /// none when the part names a dataset that has no path.
    pub fn from_partial(part: PartialIndex, search_sigs: Vec<String>, template: SketchTemplate) -> (r: Option<RevIndex>)
        requires
            part.wf(),
        ensures
            r is Some <==> part.bound_spec() <= search_sigs@.len(),
            r matches Some(idx) ==> {
                &&& idx.wf()
                &&& idx.index_view() == part.view_map()
                &&& idx.files() == search_sigs@
                &&& idx.refs() is None
                &&& idx.template_spec() == template
            },
    {
        if part.bound > search_sigs.len() {
            return None;
        }
        let ghost n = search_sigs@.len();
        let ghost v = part.view_map();
        let PartialIndex { hash_to_idx, hash_keys, bound } = part;
        assert forall|h: u64| #[trigger] hash_to_idx@.contains_key(h) implies ids_ok(hash_to_idx@[h]@, n) by {
            let w = hash_to_idx@[h]@;
            assert(ids_ok(w, bound as nat));
            assert forall|j: int| 0 <= j < w.len() implies w[j] < n by {}
        }
        let idx = RevIndex::assemble(hash_to_idx, hash_keys, search_sigs, template);
        assert(idx.index_view() =~= v);
        Some(idx)
    }
}

/// Whether `x` is in `w`.
fn vec_contains(w: &Vec<usize>, x: usize) -> (r: bool)
    ensures
        r == w@.contains(x),
{
    let mut k: usize = 0;
    while k < w.len()
        invariant
            k <= w.len(),
            forall|j: int| 0 <= j < k ==> w@[j] != x,
        decreases w.len() - k,
    {
        if w[k] == x {
            return true;
        }
        k += 1;
    }
    false
}

/// Adds to `w` each identifier of `v` that it lacks.
fn union_into(w: &mut Vec<usize>, v: &Vec<usize>, n: usize)
    requires
        ids_ok(old(w)@, n as nat),
        ids_ok(v@, n as nat),
    ensures
        ids_ok(final(w)@, n as nat),
        final(w)@.to_set() == old(w)@.to_set().union(v@.to_set()),
{
    let ghost w0 = w@;
    let mut k: usize = 0;
    while k < v.len()
        invariant
            k <= v.len(),
            ids_ok(w@, n as nat),
            ids_ok(v@, n as nat),
            w@.to_set() == w0.to_set().union(v@.subrange(0, k as int).to_set()),
        decreases v.len() - k,
    {
        let x = v[k];
        let ghost before = w@;
        proof {
            v@.subrange(0, k as int).lemma_push_to_set_commute(x);
            assert(v@.subrange(0, k as int).push(x) == v@.subrange(0, k + 1));
        }
        if !vec_contains(w, x) {
            w.push(x);
            proof {
                before.lemma_push_to_set_commute(x);
                assert forall|a: int, b: int| 0 <= a < b < w@.len() implies w@[a] != w@[b] by {
                    if b == before.len() {
                        assert(before.contains(before[a]));
                    } else {
                        assert(before[a] != before[b]);
                    }
                }
            }
        }
        assert(w@.to_set() =~= w0.to_set().union(v@.subrange(0, k + 1).to_set()));
        k += 1;
    }
    assert(v@.subrange(0, v.len() as int) == v@);
}

} // verus!
