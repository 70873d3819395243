use counter::Counter;
use vstd::prelude::*;

verus! {

#[verifier::external_type_specification]
#[verifier::external_body]
#[verifier::reject_recursive_types(T)]
#[verifier::reject_recursive_types(N)]
#[verifier::reject_recursive_types(S)]
pub struct ExCounter<T, N, S>(Counter<T, N, S>);

/// A counter of dataset identifiers.
pub type SigCounter = Counter<usize, usize>;

/// What a counter holds: each dataset identifier that it has, with its count.
pub uninterp spec fn counts_of(c: Counter<usize, usize>) -> Map<usize, usize>;

/// The counts of a sequence of identifiers: how often each one occurs.
pub open spec fn tally_map(ids: Seq<usize>) -> Map<usize, usize> {
    Map::new(|d: usize| ids.contains(d), |d: usize| ids.to_multiset().count(d) as usize)
}

/// `d` with count `n` comes first in a counter: no other entry has a larger
/// count, and none with the same count has a smaller identifier.
pub open spec fn is_top(m: Map<usize, usize>, d: usize, n: usize) -> bool {
    &&& m.contains_key(d)
    &&& m[d] == n
    &&& forall|e: usize| #[trigger]
        m.contains_key(e) ==> m[e] < n || (m[e] == n && d <= e)
}

/// The order of the entries of a counter: larger count first, then smaller
/// identifier.
pub open spec fn precedes(a: (usize, usize), b: (usize, usize)) -> bool {
    a.1 > b.1 || (a.1 == b.1 && a.0 < b.0)
}

/// `s` lists every entry of `m` once, in the order of `precedes`.
pub open spec fn is_ranking(m: Map<usize, usize>, s: Seq<(usize, usize)>) -> bool {
    &&& forall|i: int| 0 <= i < s.len() ==> #[trigger] m.contains_key(s[i].0) && m[s[i].0] == s[i].1
    &&& forall|d: usize| #[trigger] m.contains_key(d) ==> exists|i: int| 0 <= i < s.len() && s[i].0 == d
    &&& forall|i: int, j: int| 0 <= i < j < s.len() ==> precedes(#[trigger] s[i], #[trigger] s[j])
}

/// One less, but never below zero.
pub open spec fn dec_floor(n: usize) -> usize {
    if n > 0 { (n - 1) as usize } else { 0 }
}

pub fn saturating_decrement(e: &mut usize)
    ensures
        *final(e) == dec_floor(*old(e)),
{
    if *e > 0 {
        *e = *e - 1;
    }
}

/// Relies on `Counter`'s `FromIterator`: each item adds one to its count.
#[verifier::external_body]
pub(crate) fn tally(ids: Vec<usize>) -> (r: SigCounter)
    ensures
        counts_of(r) == tally_map(ids@),
{
    ids.into_iter().collect()
}

/// Relies on `Counter`'s `Deref` to its `HashMap`: `len` is the number of keys.
#[verifier::external_body]
pub(crate) fn counter_len(c: &SigCounter) -> (r: usize)
    ensures
        r == counts_of(*c).dom().len(),
{
    c.len()
}

/// Relies on `Counter::k_most_common_ordered(1)`: the entry with the largest
/// count, the smallest identifier among equal counts; nothing when empty.
#[verifier::external_body]
pub(crate) fn top_entry(c: &SigCounter) -> (r: Vec<(usize, usize)>)
    ensures
        r@.len() <= 1,
        r@.len() == 0 <==> counts_of(*c).dom() == Set::<usize>::empty(),
        r@.len() == 1 ==> is_top(counts_of(*c), r@[0].0, r@[0].1),
{
    c.k_most_common_ordered(1)
}

/// Relies on `Counter::most_common_ordered`: every entry, larger counts first
/// and equal counts by identifier.
#[verifier::external_body]
pub(crate) fn ranking(c: &SigCounter) -> (r: Vec<(usize, usize)>)
    ensures
        is_ranking(counts_of(*c), r@),
{
    c.most_common_ordered()
}

/// Relies on `Counter`'s `DerefMut` and `HashMap::entry(..).and_modify`:
/// the count of `d`, if it has one, goes down by one but not below zero.
#[verifier::external_body]
pub(crate) fn decrement(c: &mut SigCounter, d: usize)
    ensures
        counts_of(*final(c)) == (if counts_of(*old(c)).contains_key(d) {
            counts_of(*old(c)).insert(d, dec_floor(counts_of(*old(c))[d]))
        } else {
            counts_of(*old(c))
        }),
{
    c.entry(d).and_modify(|e| saturating_decrement(e));
}

/// Relies on `Counter`'s `DerefMut` and `HashMap::remove`: `d` leaves the
/// counter.
#[verifier::external_body]
pub(crate) fn remove_key(c: &mut SigCounter, d: usize)
    ensures
        counts_of(*final(c)) == counts_of(*old(c)).remove(d),
{
    c.remove(&d);
}

} // verus!
