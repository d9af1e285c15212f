//! Enumeration of edge-preserving mappings of a small directed motif graph
//! into a larger directed host graph.

pub mod graph;
pub mod mapping;
pub mod search;

pub use mapping::Mapping;
pub use search::find_motifs;
pub use search::MotifError;
