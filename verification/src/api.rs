//! The plain data shapes that the transport layer exchanges with its
//! clients.  The surrounding server deserializes into and serializes out of
//! copies of these; the library holds the bare shapes themselves.

use vstd::prelude::*;

verus! {

/// A request to ingest one document: the caller-assigned document id and
/// the document's raw text, to be tokenized by the transport layer.
pub struct IndexRequest {
    pub doc_id: usize,
    pub text: String,
}

/// A request to rank the documents of one normalized term.
pub struct SearchRequest {
    pub query: String,
}

/// A ranked answer: the query echoed back, and the matching document ids in
/// non-increasing order of relevance.
pub struct SearchResult {
    pub query: String,
    pub hits: Vec<usize>,
}

} // verus!
