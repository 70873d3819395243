use vstd::prelude::*;

use crate::counts::{is_ranking, precedes};
use crate::gather::{gather_spec, next_of, sat_sub, subtract_match, GatherResult};
use crate::revindex::{
    build_view, entries_map, entries_valid, fetched, hashes_hitting, hit_counts, hits, kept_hashes,
    lemma_hits_card, passes, query_filter, ref_hashes, union_of, ReferenceSketch, RevIndex,
};
use crate::partial::{dataset_view, set_at, union_merge};
use crate::sketch::MinHashSketch;

verus! {

/// In an index built without queries, the hashes of a query that reach
/// dataset `d` are exactly the hashes that the query shares with `d`'s
/// sketch; so the count of `d` in the query's counter is the size of that
/// overlap.
pub proof fn lemma_counter_counts_overlap(refs: Seq<ReferenceSketch>, query: MinHashSketch, d: usize)
    requires
        d < refs.len(),
    ensures
        hashes_hitting(build_view(refs, None), query.hash_set(), d) == query.hash_set().intersect(
            ref_hashes(refs[d as int]),
        ),
{
    let bv = build_view(refs, None);
    assert forall|h: u64| #[trigger] ref_hashes(refs[d as int]).contains(h) implies kept_hashes(refs[d as int], None).contains(h) by {}
    assert(hashes_hitting(bv, query.hash_set(), d) =~= query.hash_set().intersect(ref_hashes(refs[d as int]))) by {
        assert forall|h: u64| query.hash_set().intersect(ref_hashes(refs[d as int])).contains(h)
            implies #[trigger] hashes_hitting(bv, query.hash_set(), d).contains(h) by {
            assert(kept_hashes(refs[d as int], None).contains(h));
            assert(bv.contains_key(h));
            assert(bv[h].contains(d));
        }
    }
}

/// Building with queries keeps exactly what building without them and then
/// keeping the hashes that some query holds keeps.
pub proof fn lemma_filtered_build_is_filtered_load(refs: Seq<ReferenceSketch>, qs: Seq<MinHashSketch>)
    ensures
        build_view(refs, Some(qs)) == build_view(refs, None).restrict(union_of(qs)),
{
    let a = build_view(refs, Some(qs));
    let b = build_view(refs, None).restrict(union_of(qs));
    assert forall|r: ReferenceSketch, h: u64| #[trigger] kept_hashes(r, Some(qs)).contains(h)
        <==> kept_hashes(r, None).contains(h) && union_of(qs).contains(h) by {
        assert(query_filter(Some(qs)) == Some(union_of(qs)));
        assert(passes(query_filter(None), h));
    }
    assert forall|h: u64| #[trigger] a.contains_key(h) <==> b.contains_key(h) by {
        if a.contains_key(h) {
            let d = choose|d: int| 0 <= d < refs.len() && #[trigger] kept_hashes(refs[d], Some(qs)).contains(h);
            assert(kept_hashes(refs[d], None).contains(h));
        }
        if b.contains_key(h) {
            let d = choose|d: int| 0 <= d < refs.len() && #[trigger] kept_hashes(refs[d], None).contains(h);
            assert(kept_hashes(refs[d], Some(qs)).contains(h));
        }
    }
    assert forall|h: u64| #[trigger] a.contains_key(h) implies a[h] == b[h] by {
        assert(a[h] =~= b[h]);
    }
    assert(a =~= b);
}

/// Loading the entries that an index hands out for saving, with its paths
/// and template and without queries, gives back the same index.
pub proof fn lemma_save_load_round_trip(
    idx: RevIndex,
    saved: Seq<(u64, Vec<usize>)>,
    loaded: RevIndex,
)
    requires
        idx.wf(),
        entries_valid(saved, idx.files().len()),
        entries_map(saved) == idx.index_view(),
        loaded.index_view() == entries_map(saved),
        loaded.files() == idx.files(),
        loaded.template_spec() == idx.template_spec(),
    ensures
        loaded.index_view() == idx.index_view(),
        loaded.files() == idx.files(),
        loaded.template_spec() == idx.template_spec(),
{
}

/// Gather is a function of the index and of the counter's contents: two runs
/// from the same counts over indexes with the same mapping, paths and
/// references give the same matches.
pub proof fn lemma_gather_deterministic(
    a: RevIndex,
    b: RevIndex,
    m: Map<usize, usize>,
    threshold: usize,
    query: MinHashSketch,
)
    requires
        a.index_view() == b.index_view(),
        a.files() == b.files(),
        a.refs() == b.refs(),
    ensures
        gather_spec(a.index_view(), a.files(), a.refs(), m, threshold, query, m.dom().len(), 0)
            == gather_spec(b.index_view(), b.files(), b.refs(), m, threshold, query, m.dom().len(), 0),
{
}

/// Every match of a gather run was selected with a count that reaches the
/// threshold, its rank is its position, and its `unique_intersect_bp` is
/// its count times the `scaled` of a kept reference.
pub proof fn lemma_gather_matches_reach_threshold(
    idx: Map<u64, Set<usize>>,
    files: Seq<String>,
    refs: Option<Seq<ReferenceSketch>>,
    m: Map<usize, usize>,
    threshold: usize,
    query: MinHashSketch,
    fuel: nat,
    rank: usize,
)
    ensures
        gather_spec(idx, files, refs, m, threshold, query, fuel, rank) matches Some(s) ==> forall|
            i: int,
        | 0 <= i < s.len() ==> (#[trigger] s[i]).unique_count >= threshold && (rank + fuel <= usize::MAX
            ==> s[i].gather_result_rank == rank + i) && s[i].unique_intersect_bp == s[i].scaled * s[i].unique_count && (exists|
            d: usize,
        | #[trigger] fetched(refs, d) matches Some(r) && r.minhash matches Some(mh) && mh.scaled_spec()
            == s[i].scaled),
    decreases fuel,
{
    if fuel > 0 {
        match next_of(m, threshold) {
            None => {},
            Some((d, n)) => {
                let g = gather_spec(idx, files, refs, m, threshold, query, fuel, rank);
                if g is Some {
                    let r = crate::revindex::fetched(refs, d).unwrap();
                    let mh = r.minhash.unwrap();
                    let m2 = crate::gather::subtract_match(m, idx, mh.hash_seq()).remove(d);
                    lemma_gather_matches_reach_threshold(
                        idx,
                        files,
                        refs,
                        m2,
                        threshold,
                        query,
                        (fuel - 1) as nat,
                        (rank + 1) as usize,
                    );
                    let rest = gather_spec(idx, files, refs, m2, threshold, query, (fuel - 1) as nat, (rank + 1) as usize).unwrap();
                    let s = g.unwrap();
                    assert(mh.scaled_spec() * n < 0x1_0000_0000_0000_0000_0000_0000) by (nonlinear_arith)
                        requires mh.scaled_spec() <= u32::MAX, n <= usize::MAX;
                    assert forall|i: int| 0 <= i < s.len() implies (#[trigger] s[i]).unique_count >= threshold
                        && (rank + fuel <= usize::MAX ==> s[i].gather_result_rank == rank + i) && s[i].unique_intersect_bp == s[i].scaled
                        * s[i].unique_count && (exists|e: usize| #[trigger] fetched(refs, e) matches Some(r) && r.minhash
                        matches Some(mh) && mh.scaled_spec() == s[i].scaled) by {
                        if i > 0 {
                            assert(s[i] == rest[i - 1]);
                        } else {
                            assert(fetched(refs, d) matches Some(r) && r.minhash matches Some(mh)
                                && mh.scaled_spec() == s[0].scaled);
                        }
                    }
                }
            },
        }
    }
}

/// A counter has one ranking: two lists that both rank its entries are
/// equal. So `search` returns exactly the datasets whose count reaches the
/// threshold, in the order of `precedes`.
pub proof fn lemma_ranking_unique(m: Map<usize, usize>, s1: Seq<(usize, usize)>, s2: Seq<(usize, usize)>)
    requires
        is_ranking(m, s1),
        is_ranking(m, s2),
    ensures
        s1 == s2,
    decreases s1.len(),
{
    if s1.len() == 0 {
        if s2.len() > 0 {
            assert(m.contains_key(s2[0].0));
        }
        assert(s1 =~= s2);
    } else {
        if s2.len() == 0 {
            assert(m.contains_key(s1[0].0));
        }
        let a = s1[0];
        let b = s2[0];
        assert(m.contains_key(b.0));
        let j = choose|j: int| 0 <= j < s1.len() && s1[j].0 == b.0;
        assert(m.contains_key(a.0));
        let k = choose|k: int| 0 <= k < s2.len() && s2[k].0 == a.0;
        assert(s1[j] == b);
        assert(s2[k] == a);
        if j > 0 && k > 0 {
            assert(precedes(s1[0], s1[j]));
            assert(precedes(s2[0], s2[k]));
        }
        assert(a == b);
        let m2 = m.remove(a.0);
        let t1 = s1.drop_first();
        let t2 = s2.drop_first();
        lemma_ranking_rest(m, s1);
        lemma_ranking_rest(m, s2);
        lemma_ranking_unique(m2, t1, t2);
        assert(s1 =~= seq![a] + t1);
        assert(s2 =~= seq![a] + t2);
    }
}

proof fn lemma_ranking_rest(m: Map<usize, usize>, s: Seq<(usize, usize)>)
    requires
        is_ranking(m, s),
        s.len() > 0,
    ensures
        is_ranking(m.remove(s[0].0), s.drop_first()),
{
    let a = s[0];
    let m2 = m.remove(a.0);
    let t = s.drop_first();
    assert forall|i: int| 0 <= i < t.len() implies #[trigger] m2.contains_key(t[i].0) && m2[t[i].0] == t[i].1 by {
        assert(t[i] == s[i + 1]);
        assert(precedes(s[0], s[i + 1]));
        assert(m.contains_key(s[i + 1].0));
    }
    assert forall|d: usize| #[trigger] m2.contains_key(d) implies exists|i: int| 0 <= i < t.len() && t[i].0 == d by {
        assert(m.contains_key(d));
        let i = choose|i: int| 0 <= i < s.len() && s[i].0 == d;
        assert(i != 0);
        assert(t[i - 1].0 == d);
    }
    assert forall|i: int, j: int| 0 <= i < j < t.len() implies precedes(#[trigger] t[i], #[trigger] t[j]) by {
        assert(t[i] == s[i + 1] && t[j] == s[j + 1]);
    }
}

/// The sum of the counts with which the matches were selected.
pub open spec fn sum_unique(s: Seq<GatherResult>) -> int
    decreases s.len(),
{
    if s.len() == 0 {
        0
    } else {
        s[0].unique_count + sum_unique(s.drop_first())
    }
}

/// Every dataset that the index gives a hash has its reference in memory,
/// well formed, with a sketch that holds that hash.
pub open spec fn sound_for(idx: Map<u64, Set<usize>>, refs: Option<Seq<ReferenceSketch>>) -> bool {
    &&& forall|h: u64, d: usize| #[trigger] idx.contains_key(h) && #[trigger] idx[h].contains(d) ==> {
        &&& fetched(refs, d) is Some
        &&& fetched(refs, d).unwrap().minhash is Some
        &&& fetched(refs, d).unwrap().minhash.unwrap().hash_set().contains(h)
    }
    &&& forall|d: usize| #[trigger] fetched(refs, d) is Some ==> fetched(refs, d).unwrap().wf()
}

proof fn lemma_split_len(a: Set<u64>, m: Set<u64>)
    requires
        a.finite(),
    ensures
        a.len() == a.difference(m).len() + a.intersect(m).len(),
{
    vstd::set_lib::lemma_set_disjoint_lens(a.difference(m), a.intersect(m));
    assert(a.difference(m) + a.intersect(m) =~= a);
}

proof fn lemma_sum_bounded(
    idx: Map<u64, Set<usize>>,
    files: Seq<String>,
    refs: Option<Seq<ReferenceSketch>>,
    m: Map<usize, usize>,
    threshold: usize,
    query: MinHashSketch,
    fuel: nat,
    rank: usize,
    rem: Set<u64>,
)
    requires
        sound_for(idx, refs),
        rem.finite(),
        forall|d: usize| #[trigger] m.contains_key(d) ==> m[d] <= hashes_hitting(idx, rem, d).len(),
    ensures
        gather_spec(idx, files, refs, m, threshold, query, fuel, rank) matches Some(s) ==> sum_unique(s)
            <= rem.len(),
    decreases fuel,
{
    let g = gather_spec(idx, files, refs, m, threshold, query, fuel, rank);
    if fuel > 0 && g is Some && next_of(m, threshold) is Some {
        let (d, n) = next_of(m, threshold).unwrap();
        let r = fetched(refs, d).unwrap();
        let mh = r.minhash.unwrap();
        let ms = mh.hash_set();
        let m2 = subtract_match(m, idx, mh.hash_seq()).remove(d);
        let rem2 = rem.difference(ms);
        assert(r.wf());
        assert(mh.wf());
        assert forall|e: usize| #[trigger] m2.contains_key(e) implies m2[e] <= hashes_hitting(idx, rem2, e).len() by {
            lemma_hits_card(idx, mh.hash_seq(), e);
            let all_e = hashes_hitting(idx, rem, e);
            vstd::set_lib::lemma_len_subset(all_e, rem);
            lemma_split_len(all_e, ms);
            assert(all_e.difference(ms) =~= hashes_hitting(idx, rem2, e));
            assert(all_e.intersect(ms).subset_of(hashes_hitting(idx, mh.hash_seq().to_set(), e)));
            vstd::set_lib::lemma_len_subset(all_e.intersect(ms), hashes_hitting(idx, mh.hash_seq().to_set(), e));
            assert(m2[e] == sat_sub(m[e], hits(idx, mh.hash_seq(), e)));
        }
        vstd::set_lib::lemma_len_difference(rem, ms);
        lemma_sum_bounded(idx, files, refs, m2, threshold, query, (fuel - 1) as nat, (rank + 1) as usize, rem2);
        let hd = hashes_hitting(idx, rem, d);
        assert(hd.subset_of(rem.intersect(ms)));
        vstd::set_lib::lemma_len_subset(rem.intersect(ms), rem);
        vstd::set_lib::lemma_len_subset(hd, rem.intersect(ms));
        lemma_split_len(rem, ms);
        let s = g.unwrap();
        let rest = gather_spec(idx, files, refs, m2, threshold, query, (fuel - 1) as nat, (rank + 1) as usize).unwrap();
        assert(s.drop_first() == rest);
        assert(crate::counts::is_top(m, d, n));
        assert(n <= hd.len());
    }
}

/// Gather never attributes more than the query holds: over a sound index,
/// the counts with which the matches of a query's counter are selected add
/// up to at most the number of hashes of the query.
pub proof fn lemma_gather_total_within_query(idx: RevIndex, threshold: usize, query: MinHashSketch)
    requires
        idx.wf(),
        query.wf(),
        sound_for(idx.index_view(), idx.refs()),
    ensures
        ({
            let m = hit_counts(idx.index_view(), query.hash_set());
            gather_spec(idx.index_view(), idx.files(), idx.refs(), m, threshold, query, m.dom().len(), 0)
                matches Some(s) ==> sum_unique(s) <= query.hash_seq().len()
        }),
{
    let m = hit_counts(idx.index_view(), query.hash_set());
    let qs = query.hash_set();
    query.hash_seq().unique_seq_to_set();
    assert forall|d: usize| #[trigger] m.contains_key(d) implies m[d] <= hashes_hitting(idx.index_view(), qs, d).len() by {
        lemma_hits_card(idx.index_view(), query.hash_seq(), d);
    }
    lemma_sum_bounded(idx.index_view(), idx.files(), idx.refs(), m, threshold, query, m.dom().len(), 0, qs);
}

/// The mapping that datasets `lo` to `hi - 1` of `refs` contribute under
/// `filter`.
pub open spec fn range_view(refs: Seq<ReferenceSketch>, filter: Option<Set<u64>>, lo: int, hi: int) -> Map<
    u64,
    Set<usize>,
> {
    Map::new(
        |h: u64| exists|d: int| lo <= d < hi && #[trigger] ref_hashes(refs[d]).contains(h) && passes(filter, h),
        |h: u64| Set::new(|d: usize| lo <= d < hi && ref_hashes(refs[d as int]).contains(h) && passes(filter, h)),
    )
}

/// Merging is commutative: the order in which two parts meet does not
/// change the mapping.
pub proof fn lemma_merge_commutes(a: Map<u64, Set<usize>>, b: Map<u64, Set<usize>>)
    ensures
        union_merge(a, b) == union_merge(b, a),
{
    assert forall|h: u64| #[trigger] union_merge(a, b).contains_key(h) implies union_merge(a, b)[h] == union_merge(b, a)[h] by {
        assert(union_merge(a, b)[h] =~= union_merge(b, a)[h]);
    }
    assert(union_merge(a, b) =~= union_merge(b, a));
}

/// Merging is associative: how parts are grouped does not change the
/// mapping.
pub proof fn lemma_merge_associates(a: Map<u64, Set<usize>>, b: Map<u64, Set<usize>>, c: Map<u64, Set<usize>>)
    ensures
        union_merge(union_merge(a, b), c) == union_merge(a, union_merge(b, c)),
{
    let l = union_merge(union_merge(a, b), c);
    let r = union_merge(a, union_merge(b, c));
    assert forall|h: u64| #[trigger] l.contains_key(h) implies l[h] == r[h] by {
        assert(l[h] =~= r[h]);
    }
    assert(l =~= r);
}

/// The empty mapping is neutral for merging.
pub proof fn lemma_merge_empty(a: Map<u64, Set<usize>>)
    ensures
        union_merge(Map::empty(), a) == a,
{
    assert forall|h: u64| #[trigger] a.contains_key(h) implies union_merge(Map::empty(), a)[h] == a[h] by {
        assert(union_merge(Map::empty(), a)[h] =~= a[h]);
    }
    assert(union_merge(Map::empty(), a) =~= a);
}

/// The part of one dataset is the range of that dataset alone.
pub proof fn lemma_dataset_is_range(refs: Seq<ReferenceSketch>, filter: Option<Set<u64>>, d: usize)
    requires
        d < refs.len(),
    ensures
        dataset_view(d, refs[d as int], filter) == range_view(refs, filter, d as int, d + 1),
{
    let a = dataset_view(d, refs[d as int], filter);
    let b = range_view(refs, filter, d as int, d + 1);
    assert forall|h: u64| #[trigger] a.contains_key(h) <==> b.contains_key(h) by {
        if b.contains_key(h) {
            let e = choose|e: int| d <= e < d + 1 && #[trigger] ref_hashes(refs[e]).contains(h) && passes(filter, h);
            assert(e == d);
        }
    }
    assert forall|h: u64| #[trigger] a.contains_key(h) implies a[h] == b[h] by {
        assert(a[h] =~= b[h]);
    }
    assert(a =~= b);
}

/// An empty range contributes nothing.
pub proof fn lemma_empty_range(refs: Seq<ReferenceSketch>, filter: Option<Set<u64>>, lo: int)
    ensures
        range_view(refs, filter, lo, lo) == Map::<u64, Set<usize>>::empty(),
{
    assert(range_view(refs, filter, lo, lo) =~= Map::<u64, Set<usize>>::empty());
}

/// Merging the parts of two adjacent ranges gives the part of their union:
/// so a parallel reduction over the datasets, merging neighbours, builds
/// the same mapping as a sequential build.
pub proof fn lemma_merge_adjacent_ranges(
    refs: Seq<ReferenceSketch>,
    filter: Option<Set<u64>>,
    lo: int,
    mid: int,
    hi: int,
)
    requires
        lo <= mid <= hi,
    ensures
        union_merge(range_view(refs, filter, lo, mid), range_view(refs, filter, mid, hi)) == range_view(
            refs,
            filter,
            lo,
            hi,
        ),
{
    let a = range_view(refs, filter, lo, mid);
    let b = range_view(refs, filter, mid, hi);
    let c = range_view(refs, filter, lo, hi);
    let m = union_merge(a, b);
    assert forall|h: u64| #[trigger] m.contains_key(h) <==> c.contains_key(h) by {
        if c.contains_key(h) {
            let e = choose|e: int| lo <= e < hi && #[trigger] ref_hashes(refs[e]).contains(h) && passes(filter, h);
            if e < mid {
                assert(a.contains_key(h));
            } else {
                assert(b.contains_key(h));
            }
        }
        if a.contains_key(h) {
            let e = choose|e: int| lo <= e < mid && #[trigger] ref_hashes(refs[e]).contains(h) && passes(filter, h);
            assert(c.contains_key(h));
        }
        if b.contains_key(h) {
            let e = choose|e: int| mid <= e < hi && #[trigger] ref_hashes(refs[e]).contains(h) && passes(filter, h);
            assert(c.contains_key(h));
        }
    }
    assert forall|h: u64| #[trigger] m.contains_key(h) implies m[h] == c[h] by {
        assert forall|d: usize| #[trigger] m[h].contains(d) <==> c[h].contains(d) by {
            if a.contains_key(h) {
                assert(set_at(a, h) == a[h]);
            } else {
                assert(!(lo <= d < mid && ref_hashes(refs[d as int]).contains(h) && passes(filter, h)));
            }
            if b.contains_key(h) {
                assert(set_at(b, h) == b[h]);
            } else {
                assert(!(mid <= d < hi && ref_hashes(refs[d as int]).contains(h) && passes(filter, h)));
            }
        }
        assert(m[h] =~= c[h]);
    }
    assert(m =~= c);
}

/// The range of all datasets, under the filter that the queries impose, is
/// the mapping that a build gives.
pub proof fn lemma_full_range_is_build(refs: Seq<ReferenceSketch>, queries: Option<Seq<MinHashSketch>>)
    ensures
        range_view(refs, query_filter(queries), 0, refs.len() as int) == build_view(refs, queries),
{
    let f = query_filter(queries);
    let a = range_view(refs, f, 0, refs.len() as int);
    let b = build_view(refs, queries);
    assert forall|r: ReferenceSketch, h: u64| #[trigger] kept_hashes(r, queries).contains(h) <==> ref_hashes(r).contains(h)
        && passes(f, h) by {}
    assert forall|h: u64| #[trigger] a.contains_key(h) <==> b.contains_key(h) by {
        if a.contains_key(h) {
            let e = choose|e: int| 0 <= e < refs.len() && #[trigger] ref_hashes(refs[e]).contains(h) && passes(f, h);
            assert(kept_hashes(refs[e], queries).contains(h));
        }
        if b.contains_key(h) {
            let e = choose|e: int| 0 <= e < refs.len() && #[trigger] kept_hashes(refs[e], queries).contains(h);
            assert(ref_hashes(refs[e]).contains(h));
        }
    }
    assert forall|h: u64| #[trigger] a.contains_key(h) implies a[h] == b[h] by {
        assert(a[h] =~= b[h]);
    }
    assert(a =~= b);
}

/// The sum of the `unique_intersect_bp` of the matches.
pub open spec fn sum_unique_bp(s: Seq<GatherResult>) -> int
    decreases s.len(),
{
    if s.len() == 0 {
        0
    } else {
        s[0].unique_intersect_bp + sum_unique_bp(s.drop_first())
    }
}

proof fn lemma_sum_bp_scales(s: Seq<GatherResult>, scaled: u32)
    requires
        forall|i: int| 0 <= i < s.len() ==> (#[trigger] s[i]).unique_intersect_bp == scaled * s[i].unique_count,
    ensures
        sum_unique_bp(s) == scaled * sum_unique(s),
    decreases s.len(),
{
    if s.len() > 0 {
        let t = s.drop_first();
        assert forall|i: int| 0 <= i < t.len() implies (#[trigger] t[i]).unique_intersect_bp == scaled * t[i].unique_count by {
            assert(t[i] == s[i + 1]);
        }
        lemma_sum_bp_scales(t, scaled);
        assert(s[0].unique_intersect_bp == scaled * s[0].unique_count);
        assert(scaled * (s[0].unique_count + sum_unique(t)) == scaled * s[0].unique_count + scaled * sum_unique(t))
            by (nonlinear_arith);
    }
}

/// In base pairs: over a sound index whose references are all sketched with
/// `scaled`, the `unique_intersect_bp` of the matches of a query's counter
/// add up to at most `scaled` times the number of hashes of the query.
pub proof fn lemma_gather_bp_within_query(idx: RevIndex, threshold: usize, query: MinHashSketch, scaled: u32)
    requires
        idx.wf(),
        query.wf(),
        sound_for(idx.index_view(), idx.refs()),
        forall|d: usize| #[trigger] fetched(idx.refs(), d) matches Some(r) ==> (r.minhash matches Some(mh)
            ==> mh.scaled_spec() == scaled),
    ensures
        ({
            let m = hit_counts(idx.index_view(), query.hash_set());
            gather_spec(idx.index_view(), idx.files(), idx.refs(), m, threshold, query, m.dom().len(), 0)
                matches Some(s) ==> sum_unique_bp(s) <= scaled * query.hash_seq().len()
        }),
{
    let m = hit_counts(idx.index_view(), query.hash_set());
    let g = gather_spec(idx.index_view(), idx.files(), idx.refs(), m, threshold, query, m.dom().len(), 0);
    lemma_gather_total_within_query(idx, threshold, query);
    lemma_gather_matches_reach_threshold(idx.index_view(), idx.files(), idx.refs(), m, threshold, query, m.dom().len(), 0);
    if g is Some {
        let s = g.unwrap();
        assert forall|i: int| 0 <= i < s.len() implies (#[trigger] s[i]).unique_intersect_bp == scaled * s[i].unique_count by {
            let e = choose|e: usize| #[trigger] fetched(idx.refs(), e) matches Some(r) && r.minhash matches Some(mh)
                && mh.scaled_spec() == s[i].scaled;
        }
        lemma_sum_bp_scales(s, scaled);
        let q = query.hash_seq().len();
        assert(sum_unique(s) <= q);
        assert(scaled * sum_unique(s) <= scaled * q) by (nonlinear_arith)
            requires sum_unique(s) <= q, scaled >= 0;
    }
}

/// An index built over well-formed references and keeping them is sound:
/// each dataset that a hash maps to has a kept sketch holding that hash.
pub proof fn lemma_built_index_is_sound(refs: Seq<ReferenceSketch>, queries: Option<Seq<MinHashSketch>>)
    requires
        forall|i: int| 0 <= i < refs.len() ==> #[trigger] refs[i].wf(),
    ensures
        sound_for(build_view(refs, queries), Some(refs)),
{
    let bv = build_view(refs, queries);
    assert forall|h: u64, d: usize| #[trigger] bv.contains_key(h) && #[trigger] bv[h].contains(d) implies {
        &&& fetched(Some(refs), d) is Some
        &&& fetched(Some(refs), d).unwrap().minhash is Some
        &&& fetched(Some(refs), d).unwrap().minhash.unwrap().hash_set().contains(h)
    } by {
        assert(kept_hashes(refs[d as int], queries).contains(h));
        assert(ref_hashes(refs[d as int]).contains(h));
    }
    assert forall|d: usize| #[trigger] fetched(Some(refs), d) is Some implies fetched(Some(refs), d).unwrap().wf() by {
        assert(refs[d as int].wf());
    }
}

} // verus!
