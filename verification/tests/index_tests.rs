use std::collections::HashMap;

use tfidf_index::index::InvertedIndex;
use tfidf_index::posting::PostingList;

#[test]
fn index_single_doc_single_term_single_position() {
    let mut index = InvertedIndex::default();

    index.add_document(1, vec![("hello".to_string(), 0)]);

    let posting = index.posting("hello").expect("posting for 'hello' should exist");

    assert_eq!(*posting.doc_ids(), vec![1]);
    assert_eq!(*posting.term_frequencies(), vec![1]);
    assert_eq!(*posting.positions(), vec![vec![0]]);
    assert_eq!(index.doc_length(1), Some(1));
}

#[test]
fn index_single_doc_single_term_multiple_positions() {
    let mut index = InvertedIndex::default();

    // same doc, same term, different positions
    index.add_document(
        1,
        vec![
            ("hello".to_string(), 0),
            ("hello".to_string(), 3),
            ("hello".to_string(), 5),
        ],
    );

    let posting = index.posting("hello").expect("posting for 'hello' should exist");

    assert_eq!(*posting.doc_ids(), vec![1]);
    // three occurrences in the same doc
    assert_eq!(*posting.term_frequencies(), vec![3]);
    assert_eq!(*posting.positions(), vec![vec![0, 3, 5]]);
    assert_eq!(index.doc_length(1), Some(3));
}

#[test]
fn index_single_term_multiple_docs_keeps_doc_ids_sorted() {
    let mut index = InvertedIndex::default();

    // Intentionally index docs out of order
    index.add_document(10, vec![("term".to_string(), 2)]);
    index.add_document(3, vec![("term".to_string(), 1)]);
    index.add_document(7, vec![("term".to_string(), 4)]);

    let posting = index.posting("term").expect("posting for 'term' should exist");

    // doc_ids must be sorted because of binary_search + insert
    assert_eq!(*posting.doc_ids(), vec![3, 7, 10]);

    // each doc saw the term once
    assert_eq!(*posting.term_frequencies(), vec![1, 1, 1]);

    // each positions[i] should contain the single position we inserted
    assert_eq!(*posting.positions(), vec![vec![1], vec![4], vec![2]]);

    // doc lengths tracked for all docs
    assert_eq!(index.doc_length(3), Some(1));
    assert_eq!(index.doc_length(7), Some(1));
    assert_eq!(index.doc_length(10), Some(1));
}

#[test]
fn index_multiple_terms_in_same_doc() {
    let mut index = InvertedIndex::default();

    index.add_document(
        1,
        vec![
            ("rust".to_string(), 0),
            ("search".to_string(), 1),
            ("rust".to_string(), 2),
        ],
    );

    // rust
    let rust_posting = index.posting("rust").expect("posting for 'rust' should exist");

    assert_eq!(*rust_posting.doc_ids(), vec![1]);
    assert_eq!(*rust_posting.term_frequencies(), vec![2]);
    assert_eq!(*rust_posting.positions(), vec![vec![0, 2]]);

    // search
    let search_posting = index.posting("search").expect("posting for 'search' should exist");

    assert_eq!(*search_posting.doc_ids(), vec![1]);
    assert_eq!(*search_posting.term_frequencies(), vec![1]);
    assert_eq!(*search_posting.positions(), vec![vec![1]]);

    // doc length
    assert_eq!(index.doc_length(1), Some(3));
}

#[test]
fn index_same_doc_multiple_calls_accumulates_correctly() {
    let mut index = InvertedIndex::default();

    index.add_document(1, vec![("foo".to_string(), 0), ("foo".to_string(), 2)]);
    index.add_document(1, vec![("foo".to_string(), 5)]);

    let posting = index.posting("foo").expect("posting for 'foo' should exist");

    assert_eq!(*posting.doc_ids(), vec![1]);
    assert_eq!(*posting.term_frequencies(), vec![3]);
    assert_eq!(*posting.positions(), vec![vec![0, 2, 5]]);

    // doc_lengths keeps the length of the *last* call for this doc_id
    assert_eq!(index.doc_length(1), Some(1));
}

#[test]
fn default_creates_empty_index() {
    let index = InvertedIndex::default();
    assert!(index.num_terms() == 0);
    assert!(index.num_docs() == 0);
}

#[test]
fn rank_returns_none_for_unknown_term() {
    let mut index = InvertedIndex::default();
    index.add_document(1, vec![("rust".to_string(), 0)]);

    let ranked = index.rank("unknown");
    assert!(ranked.is_none());
}

#[test]
fn rank_orders_documents_by_tf_idf() {
    let mut index = InvertedIndex::default();

    // doc 1: "rust" once, length 1
    index.add_document(1, vec![("rust".to_string(), 0)]);

    // doc 2: "rust" twice, plus one extra token, length 3
    index.add_document(
        2,
        vec![
            ("rust".to_string(), 0),
            ("rust".to_string(), 1),
            ("extra".to_string(), 2),
        ],
    );

    // doc 3: does not contain "rust" (affects idf only)
    index.add_document(3, vec![("extra".to_string(), 0)]);

    let ranked = index.rank("rust").expect("should rank 'rust'");

    // doc 1 has tf = 1/1 = 1.0
    // doc 2 has tf = 2/3 < 1.0
    // both share the same idf, so doc 1 should come first
    assert_eq!(ranked, vec![1, 2]);
}

#[test]
fn rank_skips_docs_without_length_info() {
    // Build an index where postings exist, but doc_lengths is empty.
    let postings = vec![(
        "term".to_string(),
        PostingList::new(vec![1], vec![2], vec![vec![0, 1]]),
    )];

    let index = InvertedIndex::new(postings, HashMap::new());

    // We still get Some, but the ranked list is empty because we can't
    // compute tf without a document length.
    let ranked = index.rank("term").expect("rank should return Some");
    assert!(ranked.is_empty());
}

#[test]
fn rank_excludes_zero_length_documents() {
    let mut index = InvertedIndex::default();

    // doc 1 first carries the term, then is re-ingested empty: its recorded
    // length drops to zero while the posting for "x" keeps doc 1.
    index.add_document(1, vec![("x".to_string(), 0)]);
    index.add_document(1, vec![]);

    assert_eq!(index.doc_length(1), Some(0));
    let posting = index.posting("x").expect("posting for 'x' should exist");
    assert_eq!(*posting.doc_ids(), vec![1]);

    // term found, zero scorable matches: present but empty
    let ranked = index.rank("x").expect("rank should return Some");
    assert!(ranked.is_empty());
}

#[test]
fn rank_with_negative_idf_prefers_lower_term_frequency() {
    // Fixture: three documents carry the term, but only two have a recorded
    // length, so n = 2 < n_t = 3 and idf = log10(2/3) is negative.  With a
    // negative shared factor, the lower tf ratio gives the higher score.
    let postings = vec![(
        "term".to_string(),
        PostingList::new(vec![1, 2, 3], vec![2, 1, 1], vec![vec![0, 1], vec![0], vec![0]]),
    )];
    let mut doc_lengths = HashMap::new();
    doc_lengths.insert(1, 1);
    doc_lengths.insert(2, 1);

    let index = InvertedIndex::new(postings, doc_lengths);

    let ranked = index.rank("term").expect("rank should return Some");
    assert_eq!(ranked, vec![2, 1]);
}

#[test]
fn rank_with_zero_idf_keeps_every_scorable_document() {
    let mut index = InvertedIndex::default();

    // Both documents carry the term, so n = n_t and every score is zero.
    index.add_document(1, vec![("rust".to_string(), 0)]);
    index.add_document(2, vec![("rust".to_string(), 0), ("more".to_string(), 1)]);

    let ranked = index.rank("rust").expect("rank should return Some");
    assert_eq!(ranked.len(), 2);
    assert!(ranked.contains(&1));
    assert!(ranked.contains(&2));
}

#[test]
fn empty_token_stream_records_zero_length_only() {
    let mut index = InvertedIndex::default();

    index.add_document(9, vec![]);

    assert_eq!(index.doc_length(9), Some(0));
    assert_eq!(index.num_terms(), 0);
    assert_eq!(index.num_docs(), 1);
}

#[test]
fn posting_list_new_keeps_columns() {
    let posting = PostingList::new(vec![2, 5], vec![1, 2], vec![vec![3], vec![0, 4]]);

    assert_eq!(*posting.doc_ids(), vec![2, 5]);
    assert_eq!(*posting.term_frequencies(), vec![1, 2]);
    assert_eq!(*posting.positions(), vec![vec![3], vec![0, 4]]);
}

#[test]
fn index_interleaved_terms_keep_columns_aligned() {
    let mut index = InvertedIndex::default();

    index.add_document(4, vec![("a".to_string(), 0), ("b".to_string(), 1)]);
    index.add_document(2, vec![("b".to_string(), 0), ("a".to_string(), 1)]);
    index.add_document(3, vec![("a".to_string(), 0), ("a".to_string(), 1)]);

    for term in ["a", "b"] {
        let posting = index.posting(term).expect("posting should exist");
        let ids = posting.doc_ids();
        let tfs = posting.term_frequencies();
        let poss = posting.positions();
        assert_eq!(ids.len(), tfs.len());
        assert_eq!(ids.len(), poss.len());
        for i in 0..ids.len() {
            assert_eq!(tfs[i], poss[i].len());
            if i + 1 < ids.len() {
                assert!(ids[i] < ids[i + 1]);
            }
        }
    }

    let a = index.posting("a").expect("posting for 'a' should exist");
    assert_eq!(*a.doc_ids(), vec![2, 3, 4]);
    assert_eq!(*a.term_frequencies(), vec![1, 2, 1]);
    assert_eq!(*a.positions(), vec![vec![1], vec![0, 1], vec![0]]);
}
