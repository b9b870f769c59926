//! All pairs similarity search on documents: binary sketches from locality
//! sensitive hashing, joined in the Hamming space by a multi-sort filter.
use vstd::prelude::*;

pub mod bitset64;
pub mod chunked_join;
pub mod counter;
pub mod errors;
pub mod feature;
pub mod jaccard;
pub mod lsh;
pub mod multi_sort;
pub mod pigeonhole;
pub mod shingling;
pub mod simple_join;
pub mod sketch;
pub mod tfidf;
pub mod weighting;

pub use chunked_join::ChunkedJoiner;
pub use jaccard::JaccardSearcher;

verus! {

} // verus!
