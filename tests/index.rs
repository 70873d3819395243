use greyhound::counts::SigCounter;
use greyhound::revindex::{IndexError, ReferenceSketch, RevIndex, SearchError};
use greyhound::sketch::{MinHashSketch, SketchTemplate};

fn template() -> SketchTemplate {
    SketchTemplate::new(31, 1000, "DNA".to_string())
}

fn sketch(hashes: &[u64]) -> MinHashSketch {
    MinHashSketch::new(hashes.to_vec(), 1000)
}

fn reference(name: &str, hashes: &[u64]) -> ReferenceSketch {
    ReferenceSketch::new(name.to_string(), Some(sketch(hashes)))
}

fn paths(n: usize) -> Vec<String> {
    (0..n).map(|i| format!("ref{}.sig", i)).collect()
}

fn build(refs: Vec<ReferenceSketch>, queries: Option<&Vec<MinHashSketch>>) -> RevIndex {
    let n = refs.len();
    RevIndex::new(paths(n), refs, template(), 0, queries, false)
}

fn sorted_ids(idx: &RevIndex, h: u64) -> Option<Vec<usize>> {
    idx.ids_of(h).map(|v| {
        let mut v = v.clone();
        v.sort();
        v
    })
}

fn count(c: &SigCounter, d: usize) -> Option<usize> {
    c.get(&d).cloned()
}

#[test]
fn sketch_drops_repeated_hashes() {
    let s = MinHashSketch::new(vec![5, 3, 5, 9, 3], 10);
    assert_eq!(s.hashes(), &vec![5, 3, 9]);
    assert_eq!(s.size(), 3);
    assert_eq!(s.scaled(), 10);
}

#[test]
fn build_maps_each_hash_to_its_datasets() {
    let idx = build(vec![reference("a", &[1, 2, 3]), reference("b", &[2, 3, 4])], None);
    assert_eq!(sorted_ids(&idx, 1), Some(vec![0]));
    assert_eq!(sorted_ids(&idx, 2), Some(vec![0, 1]));
    assert_eq!(sorted_ids(&idx, 4), Some(vec![1]));
    assert_eq!(sorted_ids(&idx, 5), None);
    assert_eq!(idx.sig_files(), &paths(2));
    assert_eq!(idx.template(), template());
}

#[test]
fn build_skips_reference_without_compatible_sketch() {
    let refs = vec![
        reference("a", &[1, 2]),
        ReferenceSketch::new("b".to_string(), None),
        reference("c", &[2]),
    ];
    let idx = build(refs, None);
    assert_eq!(sorted_ids(&idx, 2), Some(vec![0, 2]));
    assert_eq!(idx.entries().len(), 2);
}

#[test]
fn build_with_queries_keeps_only_query_hashes() {
    let queries = vec![sketch(&[1, 10]), sketch(&[4])];
    let idx = build(vec![reference("a", &[1, 2, 3]), reference("b", &[2, 3, 4])], Some(&queries));
    assert_eq!(sorted_ids(&idx, 1), Some(vec![0]));
    assert_eq!(sorted_ids(&idx, 4), Some(vec![1]));
    assert_eq!(sorted_ids(&idx, 2), None);
    assert_eq!(idx.entries().len(), 2);
}

#[test]
fn threshold_does_not_change_build() {
    let queries = vec![sketch(&[2, 3])];
    let refs = || vec![reference("a", &[1, 2, 3]), reference("b", &[3])];
    let a = RevIndex::new(paths(2), refs(), template(), 0, Some(&queries), false);
    let b = RevIndex::new(paths(2), refs(), template(), 50, Some(&queries), false);
    for h in [1u64, 2, 3] {
        assert_eq!(sorted_ids(&a, h), sorted_ids(&b, h));
    }
}

#[test]
fn counter_for_query_counts_overlap() {
    let idx = build(vec![reference("a", &[1, 2, 3]), reference("b", &[2, 3, 4]), reference("c", &[7])], None);
    let c = idx.counter_for_query(&sketch(&[1, 2, 3, 4, 5]));
    assert_eq!(count(&c, 0), Some(3));
    assert_eq!(count(&c, 1), Some(3));
    assert_eq!(count(&c, 2), None);
    assert_eq!(c.len(), 2);
}

#[test]
fn counter_counts_every_indexed_hash() {
    let idx = build(vec![reference("a", &[1, 2, 3]), reference("b", &[2, 3, 4]), reference("c", &[7])], None);
    let c = idx.counter();
    assert_eq!(count(&c, 0), Some(3));
    assert_eq!(count(&c, 1), Some(3));
    assert_eq!(count(&c, 2), Some(1));
}

#[test]
fn search_returns_prefix_over_threshold() {
    let idx = build(
        vec![reference("a", &[1]), reference("b", &[1, 2, 3]), reference("c", &[1, 2]), reference("d", &[2, 3])],
        None,
    );
    let c = idx.counter_for_query(&sketch(&[1, 2, 3]));
    let found = idx.search(c, false, 2).unwrap();
    assert_eq!(found, vec!["ref1.sig".to_string(), "ref2.sig".to_string(), "ref3.sig".to_string()]);
}

#[test]
fn search_with_zero_threshold_lists_all_in_order() {
    let idx = build(vec![reference("a", &[1]), reference("b", &[1, 2])], None);
    let c = idx.counter_for_query(&sketch(&[1, 2]));
    assert_eq!(idx.search(c, false, 0).unwrap(), vec!["ref1.sig".to_string(), "ref0.sig".to_string()]);
}

#[test]
fn search_by_similarity_is_unsupported() {
    let idx = build(vec![reference("a", &[1])], None);
    let c = idx.counter_for_query(&sketch(&[1]));
    assert_eq!(idx.search(c, true, 0), Err(SearchError::Unsupported));
}

#[test]
fn entries_and_load_round_trip() {
    let idx = build(vec![reference("a", &[1, 2, 3]), reference("b", &[2, 3, 4])], None);
    let entries = idx.entries();
    let loaded = RevIndex::load(entries.clone(), idx.sig_files().clone(), idx.template(), None).unwrap();
    assert_eq!(loaded.entries(), entries);
    assert_eq!(loaded.sig_files(), idx.sig_files());
    assert_eq!(loaded.template(), idx.template());
    for h in 0..6u64 {
        assert_eq!(sorted_ids(&loaded, h), sorted_ids(&idx, h));
    }
}

#[test]
fn filtered_build_equals_filtered_load() {
    let refs = || vec![reference("a", &[1, 2, 3]), reference("b", &[2, 3, 4]), reference("c", &[5, 6])];
    let queries = vec![sketch(&[2, 6]), sketch(&[4, 9])];
    let built = build(refs(), Some(&queries));
    let full = build(refs(), None);
    let loaded = RevIndex::load(full.entries(), full.sig_files().clone(), template(), Some(&queries)).unwrap();
    for h in 0..10u64 {
        assert_eq!(sorted_ids(&built, h), sorted_ids(&loaded, h));
    }
}

#[test]
fn query_filter_on_load() {
    let refs: Vec<ReferenceSketch> = (0..10u64)
        .map(|i| reference(&format!("r{}", i), &[i * 10, i * 10 + 1, i * 10 + 2]))
        .collect();
    let full = build(refs, None);
    let query = sketch(&[0, 11, 22, 1000, 2000]);
    let loaded = RevIndex::load(full.entries(), full.sig_files().clone(), template(), Some(&vec![query])).unwrap();
    assert!(loaded.entries().len() <= 3);
    assert_eq!(loaded.entries().len(), 3);
    assert_eq!(loaded.sig_files(), &paths(10));
    assert_eq!(sorted_ids(&loaded, 11), Some(vec![1]));
}

#[test]
fn load_rejects_duplicate_hash() {
    let entries = vec![(1u64, vec![0usize]), (1u64, vec![1usize])];
    let r = RevIndex::load(entries, paths(2), template(), None);
    assert_eq!(r.err(), Some(IndexError::DuplicateHash { hash: 1 }));
}

#[test]
fn load_rejects_invalid_entries() {
    let out_of_range = RevIndex::load(vec![(5u64, vec![2usize])], paths(2), template(), None);
    assert_eq!(out_of_range.err(), Some(IndexError::InvalidEntry { hash: 5 }));
    let empty = RevIndex::load(vec![(6u64, vec![])], paths(2), template(), None);
    assert_eq!(empty.err(), Some(IndexError::InvalidEntry { hash: 6 }));
    let repeated = RevIndex::load(vec![(7u64, vec![1usize, 1])], paths(2), template(), None);
    assert_eq!(repeated.err(), Some(IndexError::InvalidEntry { hash: 7 }));
}
