//! A personal note repository: notes are kept in an authoritative record
//! store and mirrored into an embedded inverted index that answers
//! relevance-ranked full-text queries.  The record store and the index are
//! persisted as two independent byte snapshots; the repository keeps them
//! consistent by always mutating the store before the index.

pub mod analyzer;
pub mod score;
pub mod store;
pub mod index;
pub mod codec;
pub mod repo;
