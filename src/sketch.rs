use std::collections::HashSet;
use vstd::prelude::*;

verus! {

broadcast use vstd::std_specs::hash::group_hash_axioms;

/// The parameters that select a compatible sketch in a signature file.
#[derive(Debug, PartialEq, Eq)]
pub struct SketchTemplate {
    pub ksize: u32,
    pub scaled: u32,
    pub hash_function: String,
}

impl SketchTemplate {
    pub fn new(ksize: u32, scaled: u32, hash_function: String) -> (r: Self)
        ensures
            r.ksize == ksize,
            r.scaled == scaled,
            r.hash_function == hash_function,
    {
        SketchTemplate { ksize, scaled, hash_function }
    }
}

impl Clone for SketchTemplate {
    fn clone(&self) -> (r: Self)
        ensures
            r == *self,
    {
        SketchTemplate {
            ksize: self.ksize,
            scaled: self.scaled,
            hash_function: self.hash_function.clone(),
        }
    }
}

/// A scaled MinHash sketch: a set of 64-bit hashes, kept as a list without
/// repetitions, and the `scaled` subsampling parameter it was made with.
#[derive(Debug)]
pub struct MinHashSketch {
    hashes: Vec<u64>,
    scaled: u32,
}

impl MinHashSketch {
    /// The hashes, in the order in which they are iterated.
    pub closed spec fn hash_seq(&self) -> Seq<u64> {
        self.hashes@
    }

    pub closed spec fn scaled_spec(&self) -> u32 {
        self.scaled
    }

    /// The set of hashes of the sketch.
    pub open spec fn hash_set(&self) -> Set<u64> {
        self.hash_seq().to_set()
    }

    /// A well-formed sketch lists each hash once.
    pub open spec fn wf(&self) -> bool {
        self.hash_seq().no_duplicates()
    }

    /// Makes a sketch of the given hashes; a repeated hash is kept once, at
    /// its first place.
    pub fn new(hashes: Vec<u64>, scaled: u32) -> (r: Self)
        ensures
            r.wf(),
            r.hash_set() == hashes@.to_set(),
            r.scaled_spec() == scaled,
    {
        let mut seen: HashSet<u64> = HashSet::new();
        let mut kept: Vec<u64> = Vec::new();
        let mut i: usize = 0;
        while i < hashes.len()
            invariant
                i <= hashes.len(),
                kept@.no_duplicates(),
                seen@ == kept@.to_set(),
                kept@.to_set() == hashes@.subrange(0, i as int).to_set(),
            decreases hashes.len() - i,
        {
            let h = hashes[i];
            proof {
                kept@.lemma_push_to_set_commute(h);
                hashes@.subrange(0, i as int).lemma_push_to_set_commute(h);
                assert(hashes@.subrange(0, i as int).push(h) == hashes@.subrange(0, i + 1));
            }
            if !seen.contains(&h) {
                seen.insert(h);
                kept.push(h);
            }
            i += 1;
        }
        assert(hashes@.subrange(0, hashes@.len() as int) == hashes@);
        MinHashSketch { hashes: kept, scaled }
    }

    pub fn hashes(&self) -> (r: &Vec<u64>)
        ensures
            r@ == self.hash_seq(),
    {
        &self.hashes
    }

    pub fn scaled(&self) -> (r: u32)
        ensures
            r == self.scaled_spec(),
    {
        self.scaled
    }

    /// The number of hashes in the sketch.
    pub fn size(&self) -> (r: usize)
        ensures
            r == self.hash_seq().len(),
    {
        self.hashes.len()
    }
}

} // verus!
