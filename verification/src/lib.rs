//! Indexing of OpenStreetMap PBF extracts: id ranges of blocks, a small
//! most-recently-used cache, a flat node-coordinate store over a memory
//! map, and way statistics.

pub mod id_range;
pub mod vec_buffer;
pub mod indexed;
pub mod node_db;
pub mod pbf;
