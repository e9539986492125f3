//! Output as an Open Knowledge Format bundle: what is known of a paper, its index, the index of
//! all papers, and the log of updates.

pub mod index;
pub mod log;
pub mod metadata;
