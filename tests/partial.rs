use greyhound::revindex::union_hashes;
use greyhound::{MinHashSketch, PartialIndex, ReferenceSketch, RevIndex, SketchTemplate};

fn template() -> SketchTemplate {
    SketchTemplate::new(21, 100, "DNA".to_string())
}

fn reference(hashes: &[u64]) -> ReferenceSketch {
    ReferenceSketch::new("r".to_string(), Some(MinHashSketch::new(hashes.to_vec(), 100)))
}

fn paths(n: usize) -> Vec<String> {
    (0..n).map(|i| format!("p{}", i)).collect()
}

fn sorted_ids(idx: &RevIndex, h: u64) -> Option<Vec<usize>> {
    idx.ids_of(h).map(|v| {
        let mut v = v.clone();
        v.sort();
        v
    })
}

fn refs() -> Vec<ReferenceSketch> {
    vec![reference(&[1, 2, 3]), reference(&[2, 3, 4]), reference(&[4, 5]), reference(&[1, 5, 6])]
}

#[test]
fn merged_parts_equal_sequential_build() {
    let filter = None;
    let parts: Vec<PartialIndex> =
        refs().iter().enumerate().map(|(d, r)| PartialIndex::for_dataset(d, r, &filter)).collect();
    let mut it = parts.into_iter();
    let (a, b, c, d) = (it.next().unwrap(), it.next().unwrap(), it.next().unwrap(), it.next().unwrap());
    let merged = PartialIndex::merge(PartialIndex::merge(a, b), PartialIndex::merge(c, d));
    assert_eq!(merged.bound(), 4);
    assert_eq!(merged.len(), 6);
    let parallel = RevIndex::from_partial(merged, paths(4), template()).unwrap();
    let sequential = RevIndex::new(paths(4), refs(), template(), 0, None, false);
    for h in 0..8u64 {
        assert_eq!(sorted_ids(&parallel, h), sorted_ids(&sequential, h));
    }
    assert_eq!(sorted_ids(&parallel, 5), Some(vec![2, 3]));
}

#[test]
fn merge_order_does_not_matter() {
    let filter = None;
    let rs = refs();
    let left = PartialIndex::merge(
        PartialIndex::for_dataset(0, &rs[0], &filter),
        PartialIndex::for_dataset(3, &rs[3], &filter),
    );
    let right = PartialIndex::merge(
        PartialIndex::for_dataset(3, &rs[3], &filter),
        PartialIndex::for_dataset(0, &rs[0], &filter),
    );
    let a = RevIndex::from_partial(left, paths(4), template()).unwrap();
    let b = RevIndex::from_partial(right, paths(4), template()).unwrap();
    for h in 0..8u64 {
        assert_eq!(sorted_ids(&a, h), sorted_ids(&b, h));
    }
    assert_eq!(sorted_ids(&a, 1), Some(vec![0, 3]));
}

#[test]
fn empty_part_is_neutral() {
    let filter = None;
    let one = PartialIndex::for_dataset(1, &refs()[1], &filter);
    let merged = PartialIndex::merge(PartialIndex::empty(), one);
    assert_eq!(merged.len(), 3);
    assert_eq!(PartialIndex::empty().len(), 0);
}

#[test]
fn filtered_parts_keep_query_hashes() {
    let queries = vec![MinHashSketch::new(vec![2, 5], 100)];
    let filter = Some(union_hashes(&queries));
    let part = refs()
        .iter()
        .enumerate()
        .map(|(d, r)| PartialIndex::for_dataset(d, r, &filter))
        .fold(PartialIndex::empty(), PartialIndex::merge);
    let idx = RevIndex::from_partial(part, paths(4), template()).unwrap();
    let built = RevIndex::new(paths(4), refs(), template(), 0, Some(&queries), false);
    for h in 0..8u64 {
        assert_eq!(sorted_ids(&idx, h), sorted_ids(&built, h));
    }
    assert_eq!(idx.entries().len(), 2);
}

#[test]
fn from_partial_rejects_missing_paths() {
    let filter = None;
    let part = PartialIndex::for_dataset(5, &reference(&[9]), &filter);
    assert!(RevIndex::from_partial(part, paths(3), template()).is_none());
}
