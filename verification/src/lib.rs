//! A small review search core: hashed term counting with online corpus
//! statistics, an append-only vector log, an append-only line log for the
//! documents, and exhaustive ranking of scored records.
//!
//! Everything here works on plain values. Feature vectors and scores are
//! carried as the bit patterns of IEEE-754 single-precision numbers, so the
//! arithmetic on them and all file access belong to the caller.

pub mod codec;
pub mod embed;
pub mod error;
pub mod index;
pub mod index_spfresh;
pub mod ingest;
pub mod meta_store;
pub mod rank;
pub mod search;
pub mod vec_index;
