//! Indexing core for a vault of structured plain-text notes: note identity
//! resolution, live text buffers with incremental edits, syntax trees kept in
//! step with each buffer, and the outgoing-link graph extracted from it.

pub mod document;
pub mod engine;
pub mod identity;
pub mod index;
pub mod links;
