//! Estimates the storage savings of content-defined chunking deduplication
//! as a text corpus grows record by record.
//!
//! The engine is split into a sliding-window rolling hash (`hashing`), a
//! boundary-detecting chunker (`chunker`), cumulative deduplication
//! bookkeeping (`dedup`), the step-by-step simulation driver (`sim`), and a
//! fixed-width table renderer (`table`).

pub mod chunker;
pub mod dedup;
pub mod hashing;
pub mod sim;
pub mod table;
