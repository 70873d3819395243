use greyhound::gather::{batch_threshold, query_threshold, GatherError, GatherResult};
use greyhound::revindex::{ReferenceSketch, RevIndex};
use greyhound::sketch::{MinHashSketch, SketchTemplate};

fn template() -> SketchTemplate {
    SketchTemplate::new(31, 1000, "DNA".to_string())
}

fn sketch(hashes: &[u64]) -> MinHashSketch {
    MinHashSketch::new(hashes.to_vec(), 1000)
}

fn reference(name: &str, hashes: &[u64]) -> ReferenceSketch {
    ReferenceSketch::new(name.to_string(), Some(sketch(hashes)))
}

fn preloaded(refs: Vec<ReferenceSketch>) -> RevIndex {
    let paths: Vec<String> = (0..refs.len()).map(|i| format!("ref{}.sig", i)).collect();
    RevIndex::new(paths, refs, template(), 0, None, true)
}

fn run(idx: &RevIndex, query: &MinHashSketch, threshold: usize) -> Vec<GatherResult> {
    let counter = idx.counter_for_query(query);
    idx.gather(counter, threshold, query).unwrap()
}

fn names(results: &[GatherResult]) -> Vec<String> {
    results.iter().map(|r| r.name.clone()).collect()
}

#[test]
fn empty_index_gathers_nothing() {
    let idx = preloaded(vec![]);
    let query = sketch(&[1, 2, 3]);
    assert!(run(&idx, &query, 0).is_empty());
    assert!(run(&idx, &query, 5).is_empty());
}

#[test]
fn self_match() {
    let a = [11u64, 12, 13, 14];
    let idx = preloaded(vec![reference("A", &a)]);
    let query = sketch(&a);
    let threshold = query_threshold(0, query.size(), 1000).unwrap();
    assert_eq!(threshold, 0);
    let results = run(&idx, &query, threshold);
    assert_eq!(names(&results), vec!["A".to_string()]);
    let r = &results[0];
    assert_eq!(r.filename, "ref0.sig");
    let f_orig_query = r.unique_count as f64 / r.query_size as f64;
    let f_match = r.unique_count as f64 / r.match_size as f64;
    assert_eq!(f_orig_query, 1.0);
    assert_eq!(f_match, 1.0);
    assert_eq!(r.intersect_count, 4);
    assert_eq!(r.intersect_bp, 4000);
    assert_eq!(r.unique_intersect_bp, 4000);
    assert_eq!(r.gather_result_rank, 0);
}

#[test]
fn disjoint_references_give_nothing() {
    let idx = preloaded(vec![reference("A", &[1, 2]), reference("B", &[3, 4])]);
    let query = sketch(&[5, 6, 7]);
    assert!(run(&idx, &query, 0).is_empty());
    assert!(run(&idx, &query, 1).is_empty());
}

#[test]
fn strict_subtraction() {
    let refs = || vec![reference("R1", &[1, 2, 3]), reference("R2", &[2, 3, 4])];
    let query = sketch(&[1, 2, 3, 4]);
    let idx = preloaded(refs());
    let results = run(&idx, &query, 1);
    assert_eq!(names(&results), vec!["R1".to_string(), "R2".to_string()]);
    assert_eq!(results[0].unique_count, 3);
    assert_eq!(results[1].unique_count, 1);
    assert_eq!(results[1].intersect_count, 3);
    assert_eq!(results[1].gather_result_rank, 1);
    let results = run(&idx, &query, 2);
    assert_eq!(names(&results), vec!["R1".to_string()]);
}

#[test]
fn tie_goes_to_lower_dataset_id() {
    let idx = preloaded(vec![reference("first", &[1, 2, 5]), reference("second", &[1, 2, 6])]);
    let query = sketch(&[1, 2]);
    let counter = idx.counter_for_query(&query);
    assert_eq!(idx.next_match(&counter, 0), Some((0, 2)));
    let results = run(&idx, &query, 1);
    assert_eq!(names(&results), vec!["first".to_string()]);
}

#[test]
fn threshold_zero_keeps_selecting_zero_counts() {
    let idx = preloaded(vec![reference("first", &[1, 2]), reference("second", &[1, 2])]);
    let query = sketch(&[1, 2]);
    let results = run(&idx, &query, 0);
    assert_eq!(names(&results), vec!["first".to_string(), "second".to_string()]);
    assert_eq!(results[1].unique_count, 0);
}

#[test]
fn gather_runs_are_repeatable() {
    let idx = preloaded(vec![reference("a", &[1, 2, 3, 4]), reference("b", &[3, 4, 5]), reference("c", &[5, 6])]);
    let query = sketch(&[1, 2, 3, 4, 5, 6]);
    assert_eq!(run(&idx, &query, 1), run(&idx, &query, 1));
}

#[test]
fn matches_reach_threshold_and_stay_within_query() {
    let idx = preloaded(vec![
        reference("a", &[1, 2, 3, 4]),
        reference("b", &[3, 4, 5, 6, 7]),
        reference("c", &[6, 7, 8]),
        reference("d", &[1, 8]),
    ]);
    let query = sketch(&[1, 2, 3, 4, 5, 6, 7, 8]);
    let results = run(&idx, &query, 1);
    assert!(results.iter().all(|r| r.unique_count >= 1));
    let total: usize = results.iter().map(|r| r.unique_count).sum();
    assert!(total <= query.size());
    let bp: u128 = results.iter().map(|r| r.unique_intersect_bp).sum();
    assert!(bp <= 1000 * query.size() as u128);
    assert_eq!(names(&results), vec!["b".to_string(), "a".to_string(), "c".to_string()]);
}

#[test]
fn gather_without_kept_references_fails() {
    let paths = vec!["ref0.sig".to_string()];
    let idx = RevIndex::new(paths, vec![reference("A", &[1, 2])], template(), 0, None, false);
    let query = sketch(&[1, 2]);
    let counter = idx.counter_for_query(&query);
    assert_eq!(idx.gather(counter, 1, &query), Err(GatherError::SketchUnavailable { dataset_id: 0 }));
}

#[test]
fn stepwise_gather_matches_gather() {
    let refs = || vec![reference("R1", &[1, 2, 3]), reference("R2", &[2, 3, 4])];
    let query = sketch(&[1, 2, 3, 4]);
    let idx = preloaded(refs());
    let expected = run(&idx, &query, 1);
    let mut counter = idx.counter_for_query(&query);
    let mut results = vec![];
    while let Some((d, n)) = idx.next_match(&counter, 1) {
        let r = idx.reference(d).unwrap();
        let mh = r.minhash.as_ref().unwrap();
        let rank = results.len();
        results.push(idx.accept_match(&mut counter, d, n, r.name.clone(), mh, &query, rank));
    }
    assert_eq!(results, expected);
}

#[test]
fn accept_match_subtracts_and_removes() {
    let idx = preloaded(vec![reference("R1", &[1, 2, 3]), reference("R2", &[2, 3, 4]), reference("R3", &[9])]);
    let query = sketch(&[1, 2, 3, 4, 9]);
    let mut counter = idx.counter_for_query(&query);
    let r1 = sketch(&[1, 2, 3]);
    idx.accept_match(&mut counter, 0, 3, "R1".to_string(), &r1, &query, 0);
    assert_eq!(counter.get(&0), None);
    assert_eq!(counter.get(&1), Some(&1));
    assert_eq!(counter.get(&2), Some(&1));
    let big = sketch(&[2, 3, 4, 9, 9]);
    idx.accept_match(&mut counter, 2, 1, "R3".to_string(), &big, &query, 1);
    assert_eq!(counter.get(&1), Some(&0));
    assert_eq!(counter.get(&2), None);
}

#[test]
fn query_threshold_divides_by_size_and_scaled() {
    assert_eq!(query_threshold(50000, 10, 1000), Some(5));
    assert_eq!(query_threshold(50000, 7, 1000), Some(7));
    assert_eq!(query_threshold(50000, 0, 1000), None);
    assert_eq!(query_threshold(50000, 10, 0), None);
    assert_eq!(query_threshold(usize::MAX, usize::MAX, u32::MAX), Some(0));
}

#[test]
fn batch_threshold_takes_smallest() {
    let qs = vec![sketch(&[1, 2]), sketch(&[1, 2, 3, 4, 5])];
    assert_eq!(batch_threshold(50000, &qs, 1000), Some(10));
    assert_eq!(batch_threshold(50000, &vec![], 1000), Some(usize::MAX));
    let with_empty = vec![sketch(&[1]), sketch(&[])];
    assert_eq!(batch_threshold(50000, &with_empty, 1000), None);
}
