//! An in-memory inverted index for single-term lookup ranked by TF-IDF.
//!
//! A [`posting::PostingList`] records, for one term, which documents contain
//! it, how often, and at which token offsets.  An [`index::InvertedIndex`]
//! owns one posting list per term together with each document's token count,
//! and offers document ingestion and ranked single-term retrieval.

pub mod api;
pub mod index;
pub mod laws;
pub mod model;
pub mod posting;
