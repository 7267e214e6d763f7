//! The library's headline guarantees, stated and proved over the index
//! model: the posting-list invariants that every ingestion preserves, and
//! the asymmetric effect of re-ingesting a document.

use vstd::prelude::*;

use crate::model::{
    count_term, ingests, lemma_no_occurrence_no_positions, lemma_posting_accum_trans,
    positions_of_term, IndexModel,
};

verus! {

/// Each term's posting list keeps its document ids strictly increasing — no
/// duplicates, always sorted — and its three columns aligned: equal lengths,
/// and each frequency equal to the number of recorded offsets.  This holds
/// at every observation point: `add_document` ensures the index invariant,
/// and `InvertedIndex::lemma_wf_inv` carries it to the model.
pub proof fn lemma_posting_columns_sorted_aligned(m: IndexModel, t: Seq<char>)
    requires
        m.inv(),
        m.postings.contains_key(t),
    ensures
        m.postings[t].tfs.len() == m.postings[t].doc_ids.len(),
        m.postings[t].positions.len() == m.postings[t].doc_ids.len(),
        forall|i: int, j: int|
            0 <= i < j < m.postings[t].doc_ids.len() ==> m.postings[t].doc_ids[i]
                < m.postings[t].doc_ids[j],
        forall|i: int|
            0 <= i < m.postings[t].doc_ids.len() ==> m.postings[t].tfs[i]
                == m.postings[t].positions[i].len(),
{
}

/// Re-ingesting the same document id overwrites its recorded length — the
/// second token count fully replaces the first — while each term's posting
/// accumulates additively: the document's frequency is the sum of its
/// occurrence counts over both calls, and its offset list is their
/// concatenation.
pub proof fn lemma_reingest_accumulates(
    m0: IndexModel,
    m1: IndexModel,
    m2: IndexModel,
    d: usize,
    toks1: Seq<(Seq<char>, usize)>,
    n1: usize,
    toks2: Seq<(Seq<char>, usize)>,
    n2: usize,
    t: Seq<char>,
)
    requires
        ingests(m0, m1, d, toks1, n1),
        ingests(m1, m2, d, toks2, n2),
    ensures
        m2.doc_lens == m0.doc_lens.insert(d, n2),
        count_term(toks1, t) > 0 || count_term(toks2, t) > 0 ==> {
            let p0 = m0.posting_or_empty(t);
            let p2 = m2.postings[t];
            &&& m2.postings.contains_key(t)
            &&& p2.freq_of(d) == p0.freq_of(d) + count_term(toks1, t) + count_term(toks2, t)
            &&& p2.positions_of(d) == p0.positions_of(d) + positions_of_term(toks1, t)
                + positions_of_term(toks2, t)
        },
{
    assert(m2.doc_lens =~= m0.doc_lens.insert(d, n2));
    let c1 = count_term(toks1, t);
    let c2 = count_term(toks2, t);
    let ps1 = positions_of_term(toks1, t);
    let ps2 = positions_of_term(toks2, t);
    let p0 = m0.posting_or_empty(t);
    if c1 > 0 && c2 > 0 {
        lemma_posting_accum_trans(p0, m1.postings[t], m2.postings[t], d, c1, ps1, c2, ps2);
        assert(m2.postings[t].positions_of(d) =~= p0.positions_of(d) + ps1 + ps2);
    } else if c1 > 0 {
        assert(m2.postings[t] == m1.postings[t]);
        lemma_no_occurrence_no_positions(toks2, t);
        assert(p0.positions_of(d) + ps1 + ps2 =~= p0.positions_of(d) + ps1);
    } else if c2 > 0 {
        assert(m1.posting_or_empty(t) == p0);
        lemma_no_occurrence_no_positions(toks1, t);
        assert(p0.positions_of(d) + ps1 + ps2 =~= p0.positions_of(d) + ps2);
    }
}

} // verus!
