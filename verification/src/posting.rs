//! Per-term posting lists: the sorted record of which documents contain a
//! term, how many times, and at which token offsets.

use vstd::prelude::*;

use crate::model::{
    lemma_doc_index_is, lemma_remove_insert_is_update, posting_accum, PostingModel,
};

verus! {

/// One term's posting list.  `doc_ids` is kept strictly increasing;
/// `term_frequencies` and `positions` are parallel to it, row by row.
#[derive(Debug, Clone)]
pub struct PostingList {
    doc_ids: Vec<usize>,
    term_frequencies: Vec<usize>,
    positions: Vec<Vec<usize>>,
}

impl View for PostingList {
    type V = PostingModel;

    closed spec fn view(&self) -> PostingModel {
        PostingModel {
            doc_ids: self.doc_ids@,
            tfs: Seq::new(self.term_frequencies@.len(), |i: int| self.term_frequencies@[i] as int),
            positions: Seq::new(self.positions@.len(), |i: int| self.positions@[i]@),
        }
    }
}

/// Locate document `d` in a strictly increasing id column by binary search:
/// either the row that holds it, or the row at which it must be inserted to
/// keep the column sorted.
fn find_row(ids: &Vec<usize>, d: usize) -> (r: Result<usize, usize>)
    requires
        forall|i: int, j: int| 0 <= i < j < ids@.len() ==> ids@[i] < ids@[j],
    ensures
        match r {
            Ok(i) => i < ids@.len() && ids@[i as int] == d,
            Err(j) => {
                &&& j <= ids@.len()
                &&& forall|k: int| 0 <= k < j ==> ids@[k] < d
                &&& forall|k: int| j <= k < ids@.len() ==> ids@[k] > d
            },
        },
{
    let mut lo: usize = 0;
    let mut hi: usize = ids.len();
    while lo < hi
        invariant
            lo <= hi <= ids@.len(),
            forall|k: int| 0 <= k < lo ==> ids@[k] < d,
            forall|k: int| hi <= k < ids@.len() ==> ids@[k] > d,
            forall|i: int, j: int| 0 <= i < j < ids@.len() ==> ids@[i] < ids@[j],
        decreases hi - lo,
    {
        let mid = lo + (hi - lo) / 2;
        let v = ids[mid];
        if v < d {
            lo = mid + 1;
        } else if v > d {
            hi = mid;
        } else {
            return Ok(mid);
        }
    }
    Err(lo)
}

impl PostingList {
    /// Build a posting list directly from its three parallel columns.  No
    /// validation is performed on this path: the caller must guarantee the
    /// alignment invariant and the strict ordering of `doc_ids`.
    pub fn new(doc_ids: Vec<usize>, term_frequencies: Vec<usize>, positions: Vec<Vec<usize>>) -> (r:
        Self)
        requires
            term_frequencies@.len() == doc_ids@.len(),
            positions@.len() == doc_ids@.len(),
            forall|i: int, j: int| 0 <= i < j < doc_ids@.len() ==> doc_ids@[i] < doc_ids@[j],
            forall|i: int|
                0 <= i < doc_ids@.len() ==> term_frequencies@[i] == #[trigger] positions@[i]@.len(),
        ensures
            r@.wf(),
            r@.doc_ids == doc_ids@,
            r@.tfs.len() == term_frequencies@.len(),
            forall|i: int| 0 <= i < term_frequencies@.len() ==> r@.tfs[i] == term_frequencies@[i],
            r@.positions.len() == positions@.len(),
            forall|i: int| 0 <= i < positions@.len() ==> r@.positions[i] == #[trigger] positions@[i]@,
    {
        Self { doc_ids, term_frequencies, positions }
    }

    /// The strictly increasing column of document ids.
    pub fn doc_ids(&self) -> (r: &Vec<usize>)
        ensures
            r@ == self@.doc_ids,
    {
        &self.doc_ids
    }

    /// The per-document occurrence counts, parallel to `doc_ids`.
    pub fn term_frequencies(&self) -> (r: &Vec<usize>)
        ensures
            r@.len() == self@.tfs.len(),
            forall|i: int| 0 <= i < r@.len() ==> r@[i] == self@.tfs[i],
    {
        &self.term_frequencies
    }

    /// The per-document token offsets, parallel to `doc_ids`.
    pub fn positions(&self) -> (r: &Vec<Vec<usize>>)
        ensures
            r@.len() == self@.positions.len(),
            forall|i: int| 0 <= i < r@.len() ==> #[trigger] r@[i]@ == self@.positions[i],
    {
        &self.positions
    }

    /// Record one occurrence of the term at offset `pos` in document `d`:
    /// bump `d`'s frequency and append the offset if `d` already has a row,
    /// otherwise insert a fresh row for `d` at the position that keeps
    /// `doc_ids` sorted.
    pub(crate) fn record_occurrence(&mut self, d: usize, pos: usize)
        requires
            old(self)@.wf(),
        ensures
            posting_accum(old(self)@, final(self)@, d, 1, seq![pos]),
    {
        let ghost p = self@;
        match find_row(&self.doc_ids, d) {
            Ok(i) => {
                proof {
                    lemma_doc_index_is(p, d, i as int);
                }
                let mut ps = self.positions.remove(i);
                ps.push(pos);
                let new_tf = ps.len();
                let ghost ps_snap = ps;
                self.positions.insert(i, ps);
                let _ = self.term_frequencies.remove(i);
                self.term_frequencies.insert(i, new_tf);
                proof {
                    let q = self@;
                    let ii = i as int;
                    assert(ps_snap@ == p.positions[ii].push(pos));
                    assert(new_tf as int == p.tfs[ii] + 1);
                    lemma_remove_insert_is_update(
                        old(self).positions@,
                        self.positions@,
                        ii,
                        ps_snap,
                    );
                    lemma_remove_insert_is_update(
                        old(self).term_frequencies@,
                        self.term_frequencies@,
                        ii,
                        new_tf,
                    );
                    assert(q.doc_ids =~= p.doc_ids);
                    assert(q.tfs =~= p.tfs.update(ii, p.tfs[ii] + 1));
                    assert(q.positions =~= p.positions.update(ii, p.positions[ii].push(pos)));
                    lemma_doc_index_is(q, d, i as int);
                    assert(q.positions_of(d) =~= p.positions_of(d) + seq![pos]);
                    assert forall|e: usize| e != d implies #[trigger] q.freq_of(e) == p.freq_of(e)
                        && q.positions_of(e) == p.positions_of(e) by {
                        if q.contains_doc(e) {
                            let j = choose|j: int|
                                0 <= j < q.doc_ids.len() && q.doc_ids[j] == e;
                            lemma_doc_index_is(q, e, j);
                            lemma_doc_index_is(p, e, j);
                        }
                    }
                }
            },
            Err(j) => {
                proof {
                    assert forall|k: int| 0 <= k < p.doc_ids.len() implies p.doc_ids[k] != d by {}
                    assert(!p.contains_doc(d));
                }
                self.doc_ids.insert(j, d);
                self.term_frequencies.insert(j, 1);
                let mut ps: Vec<usize> = Vec::new();
                ps.push(pos);
                let ghost ps_snap = ps;
                self.positions.insert(j, ps);
                proof {
                    let q = self@;
                    let jj = j as int;
                    assert(ps_snap@ =~= seq![pos]);
                    p.doc_ids.insert_ensures(jj, d);
                    old(self).term_frequencies@.insert_ensures(jj, 1usize);
                    old(self).positions@.insert_ensures(jj, ps_snap);
                    p.tfs.insert_ensures(jj, 1int);
                    p.positions.insert_ensures(jj, seq![pos]);
                    assert(q.doc_ids =~= p.doc_ids.insert(jj, d));
                    assert(q.tfs =~= p.tfs.insert(jj, 1));
                    assert(q.positions =~= p.positions.insert(jj, seq![pos]));
                    assert(q.wf()) by {
                        assert forall|a: int, b: int|
                            0 <= a < b < q.doc_ids.len() implies q.doc_ids[a] < q.doc_ids[b] by {
                            let ji = j as int;
                            if a < ji && b == ji {
                            } else if a == ji && b > ji {
                            } else if a < ji && b > ji {
                            }
                        }
                    }
                    lemma_doc_index_is(q, d, j as int);
                    assert(q.positions_of(d) =~= p.positions_of(d) + seq![pos]);
                    assert forall|e: usize| #[trigger] q.contains_doc(e) implies p.contains_doc(e)
                        || e == d by {
                        if e != d {
                            let a = choose|a: int|
                                0 <= a < q.doc_ids.len() && q.doc_ids[a] == e;
                            if a < j as int {
                                assert(p.doc_ids[a] == e);
                            } else {
                                assert(p.doc_ids[a - 1] == e);
                            }
                        }
                    }
                    assert forall|e: usize| p.contains_doc(e) || e == d implies #[trigger] q
                        .contains_doc(e) by {
                        if e != d {
                            let a = choose|a: int|
                                0 <= a < p.doc_ids.len() && p.doc_ids[a] == e;
                            if a < j as int {
                                assert(q.doc_ids[a] == e);
                            } else {
                                assert(q.doc_ids[a + 1] == e);
                            }
                        }
                    }
                    assert forall|e: usize| e != d implies #[trigger] q.freq_of(e) == p.freq_of(e)
                        && q.positions_of(e) == p.positions_of(e) by {
                        if p.contains_doc(e) {
                            let a = choose|a: int|
                                0 <= a < p.doc_ids.len() && p.doc_ids[a] == e;
                            lemma_doc_index_is(p, e, a);
                            if a < j as int {
                                lemma_doc_index_is(q, e, a);
                            } else {
                                lemma_doc_index_is(q, e, a + 1);
                            }
                        }
                    }
                }
            },
        }
    }
}

impl Default for PostingList {
    /// The empty posting list.
    fn default() -> (r: Self)
        ensures
            r@ == PostingModel::empty(),
            r@.wf(),
    {
        let r = Self { doc_ids: Vec::new(), term_frequencies: Vec::new(), positions: Vec::new() };
        proof {
            assert(r@.doc_ids =~= PostingModel::empty().doc_ids);
            assert(r@.tfs =~= PostingModel::empty().tfs);
            assert(r@.positions =~= PostingModel::empty().positions);
        }
        r
    }
}

} // verus!
