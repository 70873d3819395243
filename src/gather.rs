use vstd::prelude::*;

use crate::counts::{
    counter_len, counts_of, dec_floor, decrement, is_top, remove_key, top_entry, SigCounter,
};
use crate::revindex::{fetched, hits, ReferenceSketch, RevIndex};
use crate::sketch::MinHashSketch;

verus! {

/// One match of a gather run. Sizes are numbers of hashes; `_bp` values are
/// sizes times the match's `scaled`.
#[derive(Debug, PartialEq, Eq)]
pub struct GatherResult {
    pub filename: String,
    pub name: String,
    /// The `scaled` of the match.
    pub scaled: u32,
    /// The match's count when it was selected: what it adds beyond the
    /// earlier matches.
    pub unique_count: usize,
    /// How many hashes the match shares with the query.
    pub intersect_count: usize,
    /// The number of hashes of the query.
    pub query_size: usize,
    /// The number of hashes of the match.
    pub match_size: usize,
    pub intersect_bp: u128,
    pub unique_intersect_bp: u128,
    /// The position of the match in the run, from zero.
    pub gather_result_rank: usize,
}

/// The reference that a gather run needed was not available.
#[derive(Debug, PartialEq, Eq)]
pub enum GatherError {
    /// Dataset `dataset_id` has no compatible sketch in memory.
    SketchUnavailable { dataset_id: usize },
}

/// The entry that a counter selects next (see `is_top`).
pub open spec fn select(m: Map<usize, usize>) -> (usize, usize) {
    choose|p: (usize, usize)| is_top(m, p.0, p.1)
}

/// `a - b`, but never below zero.
pub open spec fn sat_sub(a: usize, b: nat) -> usize {
    if a >= b {
        (a - b) as usize
    } else {
        0
    }
}

/// The counter once each hash of a match has taken one from the count of
/// every dataset that the index gives it, never below zero.
pub open spec fn subtract_match(m: Map<usize, usize>, idx: Map<u64, Set<usize>>, hs: Seq<u64>) -> Map<
    usize,
    usize,
> {
    Map::new(|d: usize| m.contains_key(d), |d: usize| sat_sub(m[d], hits(idx, hs, d)))
}

/// The record of selecting the dataset of path `file` and name `name`, with
/// sketch `mh` and count `n`, for `query`, at position `rank`.
pub open spec fn record(
    file: String,
    name: String,
    mh: MinHashSketch,
    n: usize,
    query: MinHashSketch,
    rank: usize,
) -> GatherResult {
    GatherResult {
        filename: file,
        name: name,
        scaled: mh.scaled_spec(),
        unique_count: n,
        intersect_count: mh.hash_set().intersect(query.hash_set()).len() as usize,
        query_size: query.hash_seq().len() as usize,
        match_size: mh.hash_seq().len() as usize,
        intersect_bp: (mh.scaled_spec() * mh.hash_set().intersect(query.hash_set()).len()) as u128,
        unique_intersect_bp: (mh.scaled_spec() * n) as u128,
        gather_result_rank: rank,
    }
}

/// What selecting next gives: nothing when the counter has no top entry (it
/// is empty) or its top count is under `threshold`, else the top entry.
pub open spec fn next_of(m: Map<usize, usize>, threshold: usize) -> Option<(usize, usize)> {
    if !exists|p: (usize, usize)| is_top(m, p.0, p.1) {
        None
    } else if select(m).1 < threshold {
        None
    } else {
        Some(select(m))
    }
}

/// The matches of a gather run over at most `fuel` selections, from
/// position `rank`; `None` when a selected reference is not available.
pub open spec fn gather_spec(
    idx: Map<u64, Set<usize>>,
    files: Seq<String>,
    refs: Option<Seq<ReferenceSketch>>,
    m: Map<usize, usize>,
    threshold: usize,
    query: MinHashSketch,
    fuel: nat,
    rank: usize,
) -> Option<Seq<GatherResult>>
    decreases fuel,
{
    if fuel == 0 {
        Some(Seq::empty())
    } else {
        match next_of(m, threshold) {
            None => Some(Seq::empty()),
            Some((d, n)) => match fetched(refs, d) {
                Some(r) => match r.minhash {
                    Some(mh) => match gather_spec(
                        idx,
                        files,
                        refs,
                        subtract_match(m, idx, mh.hash_seq()).remove(d),
                        threshold,
                        query,
                        (fuel - 1) as nat,
                        (rank + 1) as usize,
                    ) {
                        Some(rest) => Some(
                            seq![record(files[d as int], r.name, mh, n, query, rank)] + rest,
                        ),
                        None => None,
                    },
                    None => None,
                },
                None => None,
            },
        }
    }
}

/// `a` before the sequence inside `o`, if there is one.
pub open spec fn prepend(a: Seq<GatherResult>, o: Option<Seq<GatherResult>>) -> Option<Seq<GatherResult>> {
    match o {
        Some(s) => Some(a + s),
        None => None,
    }
}

proof fn lemma_top_unique(m: Map<usize, usize>, d: usize, n: usize)
    requires
        is_top(m, d, n),
    ensures
        select(m) == (d, n),
{
    let w = (d, n);
    assert(is_top(m, w.0, w.1));
    let p = select(m);
    assert(is_top(m, p.0, p.1));
    assert(m.contains_key(p.0) && m.contains_key(d));
}

/// The number of hashes two sketches share.
fn shared_count(a: &MinHashSketch, b: &MinHashSketch) -> (r: usize)
    requires
        a.wf(),
    ensures
        r == a.hash_set().intersect(b.hash_set()).len(),
{
    let bs = b.hashes();
    let mut other: std::collections::HashSet<u64> = std::collections::HashSet::new();
    let mut j: usize = 0;
    while j < bs.len()
        invariant
            j <= bs.len(),
            bs@ == b.hash_seq(),
            other@ == bs@.subrange(0, j as int).to_set(),
        decreases bs.len() - j,
    {
        other.insert(bs[j]);
        proof {
            bs@.subrange(0, j as int).lemma_push_to_set_commute(bs@[j as int]);
            assert(bs@.subrange(0, j as int).push(bs@[j as int]) == bs@.subrange(0, j + 1));
        }
        j += 1;
    }
    assert(bs@.subrange(0, bs.len() as int) == bs@);
    let hs = a.hashes();
    let mut count: usize = 0;
    let mut i: usize = 0;
    let ghost mut common: Set<u64> = Set::empty();
    while i < hs.len()
        invariant
            i <= hs.len(),
            hs@ == a.hash_seq(),
            hs@.no_duplicates(),
            other@ == b.hash_set(),
            common == hs@.subrange(0, i as int).to_set().intersect(b.hash_set()),
            common.finite(),
            count == common.len(),
            count <= i,
        decreases hs.len() - i,
    {
        let h = hs[i];
        proof {
            hs@.subrange(0, i as int).lemma_push_to_set_commute(h);
            assert(hs@.subrange(0, i as int).push(h) == hs@.subrange(0, i + 1));
            assert(!hs@.subrange(0, i as int).contains(h)) by {
                if hs@.subrange(0, i as int).contains(h) {
                    let k = choose|k: int| 0 <= k < i && hs@.subrange(0, i as int)[k] == h;
                    assert(hs@[k] == hs@[i as int]);
                }
            }
        }
        if other.contains(&h) {
            proof {
                assert(!common.contains(h));
                common = common.insert(h);
            }
            count += 1;
        }
        assert(common =~= hs@.subrange(0, i + 1).to_set().intersect(b.hash_set()));
        i += 1;
    }
    assert(hs@.subrange(0, hs.len() as int) == hs@);
    count
}

impl RevIndex {
    /// The dataset that gather selects next, with its count: the largest
    /// count, the smallest identifier among equal counts; nothing when the
    /// counter is empty or that count is under `threshold`.
    pub fn next_match(&self, counter: &SigCounter, threshold: usize) -> (r: Option<(usize, usize)>)
        ensures
            r == next_of(counts_of(*counter), threshold),
    {
        let top = top_entry(counter);
        if top.len() == 0 {
            assert(!exists|p: (usize, usize)| is_top(counts_of(*counter), p.0, p.1)) by {
                if exists|p: (usize, usize)| is_top(counts_of(*counter), p.0, p.1) {
                    let p = choose|p: (usize, usize)| is_top(counts_of(*counter), p.0, p.1);
                    assert(counts_of(*counter).dom().contains(p.0));
                }
            }
            None
        } else {
            let (d, n) = top[0];
            proof {
                lemma_top_unique(counts_of(*counter), d, n);
                let w = (d, n);
                assert(is_top(counts_of(*counter), w.0, w.1));
            }
            if n < threshold {
                None
            } else {
                Some((d, n))
            }
        }
    }

    /// Takes each hash of the match from the count of every dataset that
    /// the index gives it, never below zero.
    pub fn subtract(&self, counter: &mut SigCounter, matched: &MinHashSketch)
        requires
            self.wf(),
        ensures
            counts_of(*final(counter)) == subtract_match(
                counts_of(*old(counter)),
                self.index_view(),
                matched.hash_seq(),
            ),
    {
        let ghost m0 = counts_of(*counter);
        let ghost idx = self.index_view();
        let hs = matched.hashes();
        let mut i: usize = 0;
        assert(counts_of(*counter) =~= subtract_match(m0, idx, hs@.subrange(0, 0)));
        while i < hs.len()
            invariant
                i <= hs.len(),
                self.wf(),
                idx == self.index_view(),
                hs@ == matched.hash_seq(),
                counts_of(*counter) == subtract_match(m0, idx, hs@.subrange(0, i as int)),
            decreases hs.len() - i,
        {
            let h = hs[i];
            let ghost pre = hs@.subrange(0, i as int);
            assert(hs@.subrange(0, i + 1).drop_last() == pre);
            assert(hs@.subrange(0, i + 1).last() == h);
            match self.ids_of(h) {
                Some(v) => {
                    let mut k: usize = 0;
                    while k < v.len()
                        invariant
                            k <= v.len(),
                            v@.no_duplicates(),
                            counts_of(*counter) == Map::new(
                                |d: usize| m0.contains_key(d),
                                |d: usize| sat_sub(m0[d], hits(idx, pre, d) + if v@.subrange(0, k as int).contains(d) { 1nat } else { 0nat }),
                            ),
                        decreases v.len() - k,
                    {
                        let d = v[k];
                        let ghost before = counts_of(*counter);
                        decrement(counter, d);
                        assert(v@.subrange(0, k + 1) == v@.subrange(0, k as int).push(d));
                        assert(!v@.subrange(0, k as int).contains(d)) by {
                            if v@.subrange(0, k as int).contains(d) {
                                let j = choose|j: int| 0 <= j < k && v@.subrange(0, k as int)[j] == d;
                                assert(v@[j] == v@[k as int]);
                            }
                        }
                        assert(counts_of(*counter) =~= Map::new(
                            |e: usize| m0.contains_key(e),
                            |e: usize| sat_sub(m0[e], hits(idx, pre, e) + if v@.subrange(0, k + 1).contains(e) { 1nat } else { 0nat }),
                        )) by {
                            assert forall|e: usize| #[trigger] m0.contains_key(e) implies counts_of(*counter)[e]
                                == sat_sub(m0[e], hits(idx, pre, e) + if v@.subrange(0, k + 1).contains(e) { 1nat } else { 0nat }) by {
                                if e == d {
                                    assert(v@.subrange(0, k + 1)[k as int] == d);
                                    assert(dec_floor(before[d]) == sat_sub(m0[e], hits(idx, pre, e) + 1));
                                } else {
                                    assert(v@.subrange(0, k + 1).contains(e) <==> v@.subrange(0, k as int).contains(e));
                                }
                            }
                        }
                        k += 1;
                    }
                    assert(v@.subrange(0, v.len() as int) == v@);
                    assert(counts_of(*counter) =~= subtract_match(m0, idx, hs@.subrange(0, i + 1))) by {
                        assert forall|e: usize| #[trigger] m0.contains_key(e) implies counts_of(*counter)[e]
                            == subtract_match(m0, idx, hs@.subrange(0, i + 1))[e] by {
                            assert(idx[h].contains(e) <==> v@.contains(e));
                            assert(hits(idx, hs@.subrange(0, i + 1), e) == hits(idx, pre, e) + (if idx.contains_key(h) && idx[h].contains(e) { 1nat } else { 0nat }));
                        }
                    }
                },
                None => {
                    assert(counts_of(*counter) =~= subtract_match(m0, idx, hs@.subrange(0, i + 1))) by {
                        assert forall|e: usize| #[trigger] m0.contains_key(e) implies counts_of(*counter)[e]
                            == subtract_match(m0, idx, hs@.subrange(0, i + 1))[e] by {
                            assert(hits(idx, hs@.subrange(0, i + 1), e) == hits(idx, pre, e));
                        }
                    }
                },
            }
            i += 1;
        }
        assert(hs@.subrange(0, hs.len() as int) == hs@);
    }

    /// Records the selection of dataset `d` with count `n`, whose sketch is
    /// `matched`, at position `rank`; then subtracts the match from the
    /// counter and removes `d` from it.
    pub fn accept_match(
        &self,
        counter: &mut SigCounter,
        d: usize,
        n: usize,
        name: String,
        matched: &MinHashSketch,
        query: &MinHashSketch,
        rank: usize,
    ) -> (r: GatherResult)
        requires
            self.wf(),
            d < self.files().len(),
            matched.wf(),
        ensures
            r == record(self.files()[d as int], name, *matched, n, *query, rank),
            counts_of(*final(counter)) == subtract_match(
                counts_of(*old(counter)),
                self.index_view(),
                matched.hash_seq(),
            ).remove(d),
    {
        let shared = shared_count(matched, query);
        let scaled = matched.scaled();
        assert((scaled as u128) * (shared as u128) < 0x1_0000_0000_0000_0000_0000_0000u128) by (nonlinear_arith)
            requires scaled <= u32::MAX, shared <= usize::MAX;
        assert((scaled as u128) * (n as u128) < 0x1_0000_0000_0000_0000_0000_0000u128) by (nonlinear_arith)
            requires scaled <= u32::MAX, n <= usize::MAX;
        let result = GatherResult {
            filename: self.file(d).clone(),
            name,
            scaled,
            unique_count: n,
            intersect_count: shared,
            query_size: query.size(),
            match_size: matched.size(),
            intersect_bp: (scaled as u128) * (shared as u128),
            unique_intersect_bp: (scaled as u128) * (n as u128),
            gather_result_rank: rank,
        };
        self.subtract(counter, matched);
        remove_key(counter, d);
        result
    }

    /// Decomposes `query` greedily over the references kept in memory:
    /// while the counter has an entry whose count reaches `threshold`, the
    /// top one (see `next_match`) becomes the next match, is subtracted and
    /// leaves the counter. Fails when a selected reference has no sketch in
    /// memory.
    pub fn gather(&self, counter: SigCounter, threshold: usize, query: &MinHashSketch) -> (r: Result<
        Vec<GatherResult>,
        GatherError,
    >)
        requires
            self.wf(),
        ensures
            ({
                let s = gather_spec(
                    self.index_view(),
                    self.files(),
                    self.refs(),
                    counts_of(counter),
                    threshold,
                    *query,
                    counts_of(counter).dom().len(),
                    0,
                );
                &&& s is None <==> r is Err
                &&& r matches Ok(v) ==> s == Some(v@)
            }),
    {
        let ghost m0 = counts_of(counter);
        let ghost idx = self.index_view();
        let mut work = counter;
        let fuel = counter_len(&work);
        let ghost total = gather_spec(idx, self.files(), self.refs(), m0, threshold, *query, fuel as nat, 0);
        let mut results: Vec<GatherResult> = Vec::new();
        let mut i: usize = 0;
        while i < fuel
            invariant
                i <= fuel,
                fuel == m0.dom().len(),
                m0 == counts_of(counter),
                self.wf(),
                idx == self.index_view(),
                results@.len() == i,
                total == gather_spec(idx, self.files(), self.refs(), m0, threshold, *query, fuel as nat, 0),
                total == prepend(
                    results@,
                    gather_spec(idx, self.files(), self.refs(), counts_of(work), threshold, *query, (fuel - i) as nat, i),
                ),
            decreases fuel - i,
        {
            let ghost cur = gather_spec(idx, self.files(), self.refs(), counts_of(work), threshold, *query, (fuel - i) as nat, i);
            match self.next_match(&work, threshold) {
                None => {
                    assert(cur == Some(Seq::<GatherResult>::empty()));
                    assert(results@ + Seq::<GatherResult>::empty() == results@);
                    return Ok(results);
                },
                Some((d, n)) => match self.reference(d) {
                    None => {
                        assert(cur is None);
                        return Err(GatherError::SketchUnavailable { dataset_id: d });
                    },
                    Some(rf) => match &rf.minhash {
                        None => {
                            assert(cur is None);
                            return Err(GatherError::SketchUnavailable { dataset_id: d });
                        },
                        Some(mh) => {
                            assert(d < self.files().len());
                            assert(rf.wf());
                            let ghost rest = gather_spec(
                                idx,
                                self.files(),
                                self.refs(),
                                subtract_match(counts_of(work), idx, mh.hash_seq()).remove(d),
                                threshold,
                                *query,
                                (fuel - i - 1) as nat,
                                (i + 1) as usize,
                            );
                            let rec = self.accept_match(&mut work, d, n, rf.name.clone(), mh, query, i);
                            let ghost before = results@;
                            results.push(rec);
                            assert(total == prepend(results@, rest)) by {
                                match rest {
                                    Some(t) => {
                                        assert(before + (seq![rec] + t) =~= results@ + t);
                                    },
                                    None => {},
                                }
                            }
                        },
                    },
                },
            }
            i += 1;
        }
        assert(results@ + Seq::<GatherResult>::empty() == results@);
        Ok(results)
    }
}

/// The threshold in hashes that `threshold_bp` gives for a query of
/// `query_size` hashes made with `scaled`.
pub open spec fn threshold_for(threshold_bp: usize, query_size: nat, scaled: u32) -> int {
    threshold_bp as int / (query_size * scaled)
}

/// The threshold in hashes for one query: `threshold_bp` divided by the
/// query's size times `scaled`. None for an empty query or a zero `scaled`.
pub fn query_threshold(threshold_bp: usize, query_size: usize, scaled: u32) -> (r: Option<usize>)
    ensures
        r is None <==> query_size == 0 || scaled == 0,
        r matches Some(t) ==> t == threshold_for(threshold_bp, query_size as nat, scaled),
{
    if query_size == 0 || scaled == 0 {
        return None;
    }
    assert((query_size as u128) * (scaled as u128) < 0x1_0000_0000_0000_0000_0000_0000u128) by (nonlinear_arith)
        requires query_size <= usize::MAX, scaled <= u32::MAX;
    assert((query_size as u128) * (scaled as u128) >= 1) by (nonlinear_arith)
        requires query_size >= 1, scaled >= 1;
    let p = (query_size as u128) * (scaled as u128);
    let t = (threshold_bp as u128) / p;
    assert(t <= threshold_bp) by (nonlinear_arith)
        requires t == threshold_bp as int / p as int, p >= 1, threshold_bp >= 0;
    Some(t as usize)
}

/// The smallest threshold in hashes over a batch of queries, starting from
/// `usize::MAX`; none when a query is empty.
pub open spec fn batch_threshold_spec(threshold_bp: usize, qs: Seq<MinHashSketch>, scaled: u32) -> Option<int>
    decreases qs.len(),
{
    if qs.len() == 0 {
        Some(usize::MAX as int)
    } else {
        match batch_threshold_spec(threshold_bp, qs.drop_last(), scaled) {
            Some(t) => if qs.last().hash_seq().len() == 0 || scaled == 0 {
                None
            } else {
                let u = threshold_for(threshold_bp, qs.last().hash_seq().len(), scaled);
                Some(if u < t { u } else { t })
            },
            None => None,
        }
    }
}

/// The threshold in hashes for a batch of queries: the smallest of their
/// own thresholds (`usize::MAX` for no query). None when a query is empty or
/// `scaled` is zero, as such a query cannot be weighed.
pub fn batch_threshold(threshold_bp: usize, queries: &Vec<MinHashSketch>, scaled: u32) -> (r: Option<usize>)
    ensures
        match batch_threshold_spec(threshold_bp, queries@, scaled) {
            Some(t) => r == Some(t as usize),
            None => r is None,
        },
{
    let mut t: usize = usize::MAX;
    let mut i: usize = 0;
    while i < queries.len()
        invariant
            i <= queries.len(),
            batch_threshold_spec(threshold_bp, queries@.subrange(0, i as int), scaled) == Some(t as int),
        decreases queries.len() - i,
    {
        assert(queries@.subrange(0, i + 1).drop_last() == queries@.subrange(0, i as int));
        assert(queries@.subrange(0, i + 1).last() == queries@[i as int]);
        match query_threshold(threshold_bp, queries[i].size(), scaled) {
            None => {
                assert(batch_threshold_spec(threshold_bp, queries@.subrange(0, i + 1), scaled) is None);
                proof { lemma_batch_none_stays(threshold_bp, queries@, scaled, i as int + 1); }
                assert(queries@.subrange(0, queries.len() as int) == queries@);
                return None;
            },
            Some(u) => {
                if u < t {
                    t = u;
                }
            },
        }
        i += 1;
    }
    assert(queries@.subrange(0, queries.len() as int) == queries@);
    Some(t)
}

proof fn lemma_batch_none_stays(threshold_bp: usize, qs: Seq<MinHashSketch>, scaled: u32, k: int)
    requires
        0 <= k <= qs.len(),
        batch_threshold_spec(threshold_bp, qs.subrange(0, k), scaled) is None,
    ensures
        batch_threshold_spec(threshold_bp, qs, scaled) is None,
    decreases qs.len() - k,
{
    if k < qs.len() {
        assert(qs.subrange(0, k + 1).drop_last() == qs.subrange(0, k));
        lemma_batch_none_stays(threshold_bp, qs, scaled, k + 1);
    } else {
        assert(qs.subrange(0, k) == qs);
    }
}

} // verus!
