//! An inverted index from sketch hashes to reference datasets, and the
//! greedy `gather` decomposition of a query over it.
pub mod counts;
pub mod gather;
pub mod laws;
pub mod partial;
pub mod revindex;
pub mod sketch;

pub use gather::{GatherError, GatherResult};
pub use revindex::{IndexError, ReferenceSketch, RevIndex, SearchError};
pub use partial::PartialIndex;
pub use sketch::{MinHashSketch, SketchTemplate};
