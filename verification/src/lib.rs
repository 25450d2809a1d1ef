//! Analysis of broken locally built packages on a pacman-based system.
//!
//! The library holds the rules of the analysis as verified functions on plain
//! values: the text formats of the tools that are queried, the artifact
//! filter, the work plan of each stage and the aggregation of the findings.
//! Running the tools and walking the filesystem is left to the caller.

pub mod text;
pub mod tools;
pub mod stages;
pub mod table;
pub mod aggregate;
pub mod report;
pub mod pool;
pub mod links;
pub mod python;
