//! Run-length coding, record scanning and keyed merging of per-position
//! sequencing tables.

pub mod codec;
pub mod densify;
pub mod genes;
pub mod groups;
pub mod lines;
pub mod merge;
pub mod names;
pub mod reindex;
pub mod report;
pub mod scan;
pub mod tables;
pub mod text;
