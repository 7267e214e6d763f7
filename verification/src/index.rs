//! The inverted index: one posting list per term, one recorded token count
//! per document, with in-place ingestion and TF-IDF ranked retrieval.

use std::collections::HashMap;

use vstd::prelude::*;

use crate::model::{
    ingests, ingests_postings, is_survivor, lemma_doc_index_is, lemma_ingest_step,
    lemma_insert_contains, lemma_remove_insert_is_update, lemma_score_ge_total,
    lemma_score_ge_trans, posting_accum, posting_or_empty_in, score_ge, tokens_view, IndexModel,
    PostingModel,
};
use crate::posting::PostingList;

use vstd::map::*;

verus! {

broadcast use vstd::std_specs::hash::group_hash_axioms;

/// There is an entry whose term reads `t`.
pub(crate) open spec fn has_key(s: Seq<(String, PostingList)>, t: Seq<char>) -> bool {
    exists|i: int| 0 <= i < s.len() && s[i].0@ == t
}

/// The entry whose term reads `t`; meaningful only when `has_key(s, t)`.
pub(crate) open spec fn key_index(s: Seq<(String, PostingList)>, t: Seq<char>) -> int {
    choose|i: int| 0 <= i < s.len() && s[i].0@ == t
}

/// The term-to-posting mapping that an entry sequence denotes.
pub(crate) open spec fn assoc_map(s: Seq<(String, PostingList)>) -> Map<Seq<char>, PostingModel> {
    Map::new(|t: Seq<char>| has_key(s, t), |t: Seq<char>| s[key_index(s, t)].1@)
}

/// No two entries carry the same term.
pub(crate) open spec fn distinct_keys(s: Seq<(String, PostingList)>) -> bool {
    forall|i: int, j: int| 0 <= i < j < s.len() ==> s[i].0@ != s[j].0@
}

/// With distinct terms, any entry holding `t` is the entry that `key_index`
/// picks.
proof fn lemma_key_index_is(s: Seq<(String, PostingList)>, t: Seq<char>, i: int)
    requires
        distinct_keys(s),
        0 <= i < s.len(),
        s[i].0@ == t,
    ensures
        has_key(s, t),
        key_index(s, t) == i,
        assoc_map(s).contains_key(t),
        assoc_map(s)[t] == s[i].1@,
{
    assert(has_key(s, t));
    let j = key_index(s, t);
    if i < j {
        assert(s[i].0@ != s[j].0@);
    } else if j < i {
        assert(s[j].0@ != s[i].0@);
    }
}

/// Replacing one entry's posting list (same term) inserts the new posting
/// list into the denoted mapping.
proof fn lemma_assoc_update(
    s0: Seq<(String, PostingList)>,
    s1: Seq<(String, PostingList)>,
    i: int,
    v: (String, PostingList),
)
    requires
        distinct_keys(s0),
        0 <= i < s0.len(),
        s1 == s0.update(i, v),
        v.0@ == s0[i].0@,
    ensures
        distinct_keys(s1),
        assoc_map(s1) == assoc_map(s0).insert(s0[i].0@, v.1@),
{
    let t0 = s0[i].0@;
    assert forall|k: int| 0 <= k < s1.len() implies (#[trigger] s1[k]).0@ == s0[k].0@ by {}
    assert(s1[i].0@ == t0);
    assert_maps_equal!(assoc_map(s1), assoc_map(s0).insert(t0, v.1@), t => {
        if has_key(s1, t) {
            let a = choose|a: int| 0 <= a < s1.len() && s1[a].0@ == t;
            lemma_key_index_is(s1, t, a);
            lemma_key_index_is(s0, t, a);
            if t == t0 {
                assert(a == i);
            } else {
                assert(a != i);
            }
        }
        if has_key(s0, t) {
            let a = choose|a: int| 0 <= a < s0.len() && s0[a].0@ == t;
            assert(s1[a].0@ == t);
        }
    });
}

/// Appending an entry with a fresh term inserts its posting list into the
/// denoted mapping.
proof fn lemma_assoc_push(
    s0: Seq<(String, PostingList)>,
    s1: Seq<(String, PostingList)>,
    v: (String, PostingList),
)
    requires
        distinct_keys(s0),
        !has_key(s0, v.0@),
        s1 == s0.push(v),
    ensures
        distinct_keys(s1),
        assoc_map(s1) == assoc_map(s0).insert(v.0@, v.1@),
{
    let t0 = v.0@;
    assert forall|i: int, j: int| 0 <= i < j < s1.len() implies s1[i].0@ != s1[j].0@ by {
        if j == s0.len() as int {
            assert(s0[i].0@ == s1[i].0@);
            if s1[i].0@ == t0 {
                assert(has_key(s0, t0));
            }
        }
    }
    assert_maps_equal!(assoc_map(s1), assoc_map(s0).insert(t0, v.1@), t => {
        if has_key(s1, t) {
            if t == t0 {
                lemma_key_index_is(s1, t, s0.len() as int);
            } else {
                let a = choose|a: int| 0 <= a < s1.len() && s1[a].0@ == t;
                assert(a < s0.len() as int);
                lemma_key_index_is(s1, t, a);
                lemma_key_index_is(s0, t, a);
            }
        }
        if has_key(s0, t) {
            let a = choose|a: int| 0 <= a < s0.len() && s0[a].0@ == t;
            assert(s1[a].0@ == t);
        }
        if t == t0 {
            assert(s1[s0.len() as int].0@ == t);
        }
    });
}

/// Find the entry of `term` by a linear scan over the entry list.
fn find_term(postings: &Vec<(String, PostingList)>, term: &String) -> (r: Option<usize>)
    ensures
        match r {
            Some(j) => j < postings@.len() && postings@[j as int].0@ == term@,
            None => !has_key(postings@, term@),
        },
{
    let mut j: usize = 0;
    while j < postings.len()
        invariant
            j <= postings@.len(),
            forall|k: int| 0 <= k < j ==> postings@[k].0@ != term@,
        decreases postings@.len() - j,
    {
        if postings[j].0 == *term {
            return Some(j);
        }
        j += 1;
    }
    None
}

/// One scorable document while ranking: its id, the term's frequency in it,
/// and its recorded length.
type Scored = (usize, usize, usize);

/// The triple describes document `tr.0` truthfully: it is scorable, and it
/// carries that document's frequency and recorded (non-zero) length.
spec fn triple_valid(p: PostingModel, lens: Map<usize, usize>, tr: Scored) -> bool {
    &&& is_survivor(p, lens, tr.0)
    &&& tr.1 == p.freq_of(tr.0)
    &&& tr.2 == lens[tr.0]
    &&& tr.2 >= 1
}

/// Document `d` is scorable and sits in the first `upto` rows of the posting
/// list.
spec fn survivor_in_prefix(p: PostingModel, lens: Map<usize, usize>, d: usize, upto: int) -> bool {
    &&& exists|k: int| 0 <= k < upto && p.doc_ids[k] == d
    &&& lens.contains_key(d)
    &&& lens[d] > 0
}

/// The score ordering on scoring triples.
spec fn score_ge_tr(a: Scored, b: Scored, n: int, nt: int) -> bool {
    score_ge(a.1 as int, a.2 as int, b.1 as int, b.2 as int, n, nt)
}

/// Compare two documents' TF-IDF scores exactly, by cross-multiplying the
/// term-frequency ratios; the shared factor `log10(n/nt)` contributes only
/// its sign.
fn score_ge_exec(f1: usize, l1: usize, f2: usize, l2: usize, n: usize, nt: usize) -> (r: bool)
    ensures
        r == score_ge(f1 as int, l1 as int, f2 as int, l2 as int, n as int, nt as int),
{
    proof {
        assert((f1 as u128) * (l2 as u128) <= u128::MAX) by (nonlinear_arith)
            requires
                f1 <= u64::MAX,
                l2 <= u64::MAX,
        ;
        assert((f2 as u128) * (l1 as u128) <= u128::MAX) by (nonlinear_arith)
            requires
                f2 <= u64::MAX,
                l1 <= u64::MAX,
        ;
    }
    if n > nt {
        (f1 as u128) * (l2 as u128) >= (f2 as u128) * (l1 as u128)
    } else if n == nt {
        true
    } else {
        (f1 as u128) * (l2 as u128) <= (f2 as u128) * (l1 as u128)
    }
}

/// The row at which `item` must be inserted to keep `ordered` sorted by
/// non-increasing score: every earlier row scores at least `item`, and the
/// row at the result (if any) scores strictly below it.
fn insert_pos(ordered: &Vec<Scored>, item: Scored, n: usize, nt: usize) -> (pos: usize)
    ensures
        pos <= ordered@.len(),
        forall|a: int| 0 <= a < pos ==> score_ge_tr(#[trigger] ordered@[a], item, n as int, nt as int),
        pos < ordered@.len() ==> !score_ge_tr(ordered@[pos as int], item, n as int, nt as int),
{
    let mut posn: usize = 0;
    while posn < ordered.len()
        invariant
            posn <= ordered@.len(),
            forall|a: int|
                0 <= a < posn ==> score_ge_tr(#[trigger] ordered@[a], item, n as int, nt as int),
        decreases ordered@.len() - posn,
    {
        let row = ordered[posn];
        if !score_ge_exec(row.1, row.2, item.1, item.2, n, nt) {
            return posn;
        }
        posn += 1;
    }
    posn
}

/// The inverted index.  `postings` maps each indexed term to its posting
/// list; `doc_lengths` records each document's most recently ingested token
/// count.
#[derive(Debug, Clone)]
pub struct InvertedIndex {
    postings: Vec<(String, PostingList)>,
    doc_lengths: HashMap<usize, usize>,
}

impl View for InvertedIndex {
    type V = IndexModel;

    closed spec fn view(&self) -> IndexModel {
        IndexModel { postings: assoc_map(self.postings@), doc_lens: self.doc_lengths@ }
    }
}

impl InvertedIndex {
    /// The index invariant: terms are distinct and every posting list is
    /// well-formed.
    pub closed spec fn wf(self) -> bool {
        &&& distinct_keys(self.postings@)
        &&& forall|i: int| 0 <= i < self.postings@.len() ==> (#[trigger] self.postings@[i].1)@.wf()
    }

    /// A well-formed index denotes a model whose posting lists all satisfy
    /// the posting-list invariant.
    pub proof fn lemma_wf_inv(&self)
        requires
            self.wf(),
        ensures
            self@.inv(),
    {
        assert forall|t: Seq<char>| #[trigger] self@.postings.contains_key(t) implies self@
            .postings[t].wf() by {
            let i = key_index(self.postings@, t);
            lemma_key_index_is(self.postings@, t, i);
        }
    }

    /// Build an index directly from its two maps.  No validation is
    /// performed on this path: the caller must guarantee that terms are
    /// distinct and that each posting list satisfies its invariant.
    pub fn new(postings: Vec<(String, PostingList)>, doc_lengths: HashMap<usize, usize>) -> (r:
        Self)
        requires
            forall|i: int, j: int| 0 <= i < j < postings@.len() ==> postings@[i].0@ != postings@[j].0@,
            forall|i: int| 0 <= i < postings@.len() ==> (#[trigger] postings@[i].1)@.wf(),
        ensures
            r.wf(),
            r@.doc_lens == doc_lengths@,
            forall|i: int|
                0 <= i < postings@.len() ==> r@.postings.contains_key(#[trigger] postings@[i].0@)
                    && r@.postings[postings@[i].0@] == postings@[i].1@,
            forall|t: Seq<char>|
                #[trigger] r@.postings.contains_key(t) ==> exists|i: int|
                    0 <= i < postings@.len() && postings@[i].0@ == t,
    {
        let ghost s = postings@;
        let r = Self { postings, doc_lengths };
        proof {
            assert forall|i: int| 0 <= i < s.len() implies r@.postings.contains_key(
                #[trigger] s[i].0@,
            ) && r@.postings[s[i].0@] == s[i].1@ by {
                lemma_key_index_is(s, s[i].0@, i);
            }
        }
        r
    }

    /// Ingest one document: overwrite its recorded length with the new token
    /// count, then record every `(term, offset)` pair, in the order given,
    /// onto the term's posting list.
    pub fn add_document(&mut self, doc_id: usize, tokens: Vec<(String, usize)>)
        requires
            old(self).wf(),
        ensures
            final(self).wf(),
            ingests(
                old(self)@,
                final(self)@,
                doc_id,
                tokens_view(tokens@),
                tokens@.len() as usize,
            ),
    {
        let ghost m0 = self@;
        let ghost toks = tokens_view(tokens@);
        let num_tokens = tokens.len();
        self.doc_lengths.insert(doc_id, num_tokens);
        proof {
            assert(toks.take(0) =~= Seq::<(Seq<char>, usize)>::empty());
        }
        let mut idx: usize = 0;
        while idx < num_tokens
            invariant
                idx <= num_tokens,
                num_tokens == tokens@.len(),
                toks == tokens_view(tokens@),
                self.wf(),
                self.doc_lengths@ == m0.doc_lens.insert(doc_id, num_tokens),
                ingests_postings(m0.postings, self@.postings, doc_id, toks.take(idx as int)),
            decreases num_tokens - idx,
        {
            let pos = tokens[idx].1;
            let ghost t0 = toks[idx as int].0;
            let ghost mk = self@.postings;
            let ghost s0 = self.postings@;
            let found = find_term(&self.postings, &tokens[idx].0);
            match found {
                Some(j) => {
                    proof {
                        lemma_key_index_is(s0, t0, j as int);
                    }
                    let (key, mut posting) = self.postings.remove(j);
                    posting.record_occurrence(doc_id, pos);
                    let ghost key_snap = key;
                    let ghost post_snap = posting;
                    self.postings.insert(j, (key, posting));
                    proof {
                        let jj = j as int;
                        lemma_remove_insert_is_update(s0, self.postings@, jj, (key_snap, post_snap));
                        lemma_assoc_update(s0, self.postings@, jj, (key_snap, post_snap));
                        assert(posting_accum(
                            posting_or_empty_in(mk, t0),
                            post_snap@,
                            doc_id,
                            1,
                            seq![toks[idx as int].1],
                        ));
                        lemma_ingest_step(
                            m0.postings,
                            mk,
                            self@.postings,
                            doc_id,
                            toks,
                            idx as int,
                            post_snap@,
                        );
                        assert forall|i: int|
                            0 <= i < self.postings@.len() implies (
                        #[trigger] self.postings@[i].1)@.wf() by {
                            if i != jj {
                                assert(self.postings@[i] == s0[i]);
                            }
                        }
                    }
                },
                None => {
                    let key = tokens[idx].0.clone();
                    let mut posting = PostingList::default();
                    posting.record_occurrence(doc_id, pos);
                    let ghost key_snap = key;
                    let ghost post_snap = posting;
                    self.postings.push((key, posting));
                    proof {
                        lemma_assoc_push(s0, self.postings@, (key_snap, post_snap));
                        assert(!mk.contains_key(t0));
                        assert(posting_or_empty_in(mk, t0) == PostingModel::empty());
                        assert(posting_accum(
                            posting_or_empty_in(mk, t0),
                            post_snap@,
                            doc_id,
                            1,
                            seq![toks[idx as int].1],
                        ));
                        lemma_ingest_step(
                            m0.postings,
                            mk,
                            self@.postings,
                            doc_id,
                            toks,
                            idx as int,
                            post_snap@,
                        );
                        assert forall|i: int|
                            0 <= i < self.postings@.len() implies (
                        #[trigger] self.postings@[i].1)@.wf() by {
                            if i < s0.len() as int {
                                assert(self.postings@[i] == s0[i]);
                            }
                        }
                    }
                },
            }
            idx += 1;
        }
        proof {
            assert(toks.take(num_tokens as int) =~= toks);
        }
    }

    /// Rank the documents containing `q` by non-increasing TF-IDF score.
    /// `None` means the term was never indexed; `Some` holds exactly the
    /// scorable documents of the term — those with a recorded, non-zero
    /// length — and is empty when the term is known but no document can be
    /// scored.
    pub fn rank(&self, q: &str) -> (r: Option<Vec<usize>>)
        requires
            self.wf(),
        ensures
            r is None <==> !self@.postings.contains_key(q@),
            r matches Some(ids) ==> {
                let p = self@.postings[q@];
                let lens = self@.doc_lens;
                let n = lens.len() as int;
                let nt = p.doc_ids.len() as int;
                &&& forall|d: usize| #[trigger] ids@.contains(d) <==> is_survivor(p, lens, d)
                &&& ids@.no_duplicates()
                &&& forall|i: int, j: int|
                    0 <= i < j < ids@.len() ==> score_ge(
                        p.freq_of(ids@[i]),
                        lens[ids@[i]] as int,
                        p.freq_of(ids@[j]),
                        lens[ids@[j]] as int,
                        n,
                        nt,
                    )
                &&& ids@.len() == 0 <==> (forall|d: usize| !is_survivor(p, lens, d))
            },
    {
        let qs: String = q.to_owned();
        let j = match find_term(&self.postings, &qs) {
            None => {
                return None;
            },
            Some(j) => j,
        };
        let ghost s = self.postings@;
        proof {
            lemma_key_index_is(s, q@, j as int);
        }
        let ghost p = s[j as int].1@;
        let ghost lens = self.doc_lengths@;
        let posting = &self.postings[j].1;
        let ids = posting.doc_ids();
        let tfs = posting.term_frequencies();
        let n = self.doc_lengths.len();
        let nt = ids.len();

        // Collect the scorable documents in posting order, with their
        // frequencies and lengths.
        let mut survivors: Vec<Scored> = Vec::new();
        let mut i: usize = 0;
        while i < nt
            invariant
                i <= nt,
                nt == p.doc_ids.len(),
                p.wf(),
                ids@ == p.doc_ids,
                tfs@.len() == p.tfs.len(),
                forall|k: int| 0 <= k < tfs@.len() ==> tfs@[k] == p.tfs[k],
                lens == self.doc_lengths@,
                forall|a: int, b: int|
                    0 <= a < b < survivors@.len() ==> (#[trigger] survivors@[a]).0 < (
                    #[trigger] survivors@[b]).0,
                forall|a: int|
                    0 <= a < survivors@.len() ==> triple_valid(p, lens, #[trigger] survivors@[a]),
                forall|a: int|
                    0 <= a < survivors@.len() ==> exists|k: int|
                        0 <= k < i && p.doc_ids[k] == (#[trigger] survivors@[a]).0,
                forall|d: usize|
                    #[trigger] survivor_in_prefix(p, lens, d, i as int) <==> exists|a: int|
                        0 <= a < survivors@.len() && (#[trigger] survivors@[a]).0 == d,
            decreases nt - i,
        {
            let d = ids[i];
            let f = tfs[i];
            let ghost pre = survivors@;
            match self.doc_lengths.get(&d) {
                Some(l_ref) => {
                    let l = *l_ref;
                    if l > 0 {
                        proof {
                            lemma_doc_index_is(p, d, i as int);
                        }
                        survivors.push((d, f, l));
                        proof {
                            assert forall|a: int, b: int|
                                0 <= a < b < survivors@.len() implies (
                            #[trigger] survivors@[a]).0 < (#[trigger] survivors@[b]).0 by {
                                if b == pre.len() as int {
                                    let k = choose|k: int|
                                        0 <= k < i && p.doc_ids[k] == pre[a].0;
                                    assert(p.doc_ids[k] < p.doc_ids[i as int]);
                                }
                            }
                        }
                    }
                },
                None => {},
            }
            proof {
                let post = survivors@;
                assert forall|d2: usize|
                    #[trigger] survivor_in_prefix(p, lens, d2, i as int + 1) implies exists|a: int|
                    0 <= a < post.len() && (#[trigger] post[a]).0 == d2 by {
                    let k = choose|k: int| 0 <= k < i as int + 1 && p.doc_ids[k] == d2;
                    if k < i as int {
                        assert(survivor_in_prefix(p, lens, d2, i as int));
                        let a = choose|a: int| 0 <= a < pre.len() && pre[a].0 == d2;
                        assert(post[a].0 == d2);
                    } else {
                        assert(d2 == ids@[i as int]);
                        assert(post[post.len() - 1].0 == d2);
                    }
                }
                assert forall|d2: usize|
                    (exists|a: int| 0 <= a < survivors@.len() && (#[trigger] survivors@[a]).0
                        == d2) implies #[trigger] survivor_in_prefix(p, lens, d2, i as int + 1) by {
                    let a = choose|a: int|
                        0 <= a < survivors@.len() && survivors@[a].0 == d2;
                    if a < pre.len() as int {
                        assert(survivor_in_prefix(p, lens, d2, i as int));
                        let k = choose|k: int| 0 <= k < i && p.doc_ids[k] == d2;
                        assert(0 <= k < i as int + 1 && p.doc_ids[k] == d2);
                    } else {
                        assert(p.doc_ids[i as int] == d2);
                    }
                }
            }
            i += 1;
        }

        // Insertion sort by non-increasing score.
        let mut ordered: Vec<Scored> = Vec::new();
        let mut k: usize = 0;
        while k < survivors.len()
            invariant
                k <= survivors@.len(),
                ordered@.len() == k,
                p.wf(),
                forall|a: int, b: int|
                    0 <= a < b < survivors@.len() ==> (#[trigger] survivors@[a]).0 < (
                    #[trigger] survivors@[b]).0,
                forall|a: int|
                    0 <= a < survivors@.len() ==> triple_valid(p, lens, #[trigger] survivors@[a]),
                forall|tr: Scored|
                    #[trigger] ordered@.contains(tr) <==> survivors@.take(k as int).contains(tr),
                forall|a: int, b: int|
                    0 <= a < b < ordered@.len() ==> (#[trigger] ordered@[a]).0 != (
                    #[trigger] ordered@[b]).0,
                forall|a: int, b: int|
                    0 <= a < b < ordered@.len() ==> score_ge_tr(
                        #[trigger] ordered@[a],
                        #[trigger] ordered@[b],
                        n as int,
                        nt as int,
                    ),
            decreases survivors@.len() - k,
        {
            let item = survivors[k];
            let ghost pre = ordered@;
            let posn = insert_pos(&ordered, item, n, nt);
            ordered.insert(posn, item);
            proof {
                let post = ordered@;
                let pi = posn as int;
                pre.insert_ensures(pi, item);
                assert(post == pre.insert(pi, item));
                // every element of `pre` satisfies triple_valid and came from
                // the processed prefix
                assert forall|a: int| 0 <= a < pre.len() implies triple_valid(
                    p,
                    lens,
                    #[trigger] pre[a],
                ) && pre[a].0 != item.0 by {
                    assert(pre.contains(pre[a]));
                    assert(survivors@.take(k as int).contains(pre[a]));
                    let b = choose|b: int|
                        0 <= b < k && survivors@.take(k as int)[b] == pre[a];
                    assert(survivors@[b] == pre[a]);
                    assert(survivors@[b].0 < survivors@[k as int].0);
                }
                // membership
                lemma_insert_contains(pre, pi, item, item);
                assert forall|tr: Scored| #[trigger] post.contains(tr) <==> survivors@.take(
                    k as int + 1,
                ).contains(tr) by {
                    lemma_insert_contains(pre, pi, item, tr);
                    assert(survivors@.take(k as int + 1) =~= survivors@.take(k as int).push(
                        survivors@[k as int],
                    ));
                    lemma_insert_contains(
                        survivors@.take(k as int),
                        k as int,
                        survivors@[k as int],
                        tr,
                    );
                    assert(survivors@.take(k as int).push(survivors@[k as int]) =~= survivors@
                        .take(k as int).insert(k as int, survivors@[k as int]));
                }
                // distinct ids
                assert forall|a: int, b: int| 0 <= a < b < post.len() implies (
                #[trigger] post[a]).0 != (#[trigger] post[b]).0 by {
                    if a < pi && b == pi {
                    } else if a == pi && b > pi {
                    } else if a < pi && b > pi {
                    }
                }
                // sortedness
                assert forall|a: int, b: int| 0 <= a < b < post.len() implies score_ge_tr(
                    #[trigger] post[a],
                    #[trigger] post[b],
                    n as int,
                    nt as int,
                ) by {
                    if b == pi {
                        assert(score_ge_tr(pre[a], item, n as int, nt as int));
                    } else if a == pi {
                        assert(!score_ge_tr(pre[pi], item, n as int, nt as int));
                        lemma_score_ge_total(
                            pre[pi].1 as int,
                            pre[pi].2 as int,
                            item.1 as int,
                            item.2 as int,
                            n as int,
                            nt as int,
                        );
                        if b > pi + 1 {
                            assert(score_ge_tr(pre[pi], pre[b - 1], n as int, nt as int));
                        }
                        if b - 1 > pi {
                            lemma_score_ge_trans(
                                item.1 as int,
                                item.2 as int,
                                pre[pi].1 as int,
                                pre[pi].2 as int,
                                pre[b - 1].1 as int,
                                pre[b - 1].2 as int,
                                n as int,
                                nt as int,
                            );
                        }
                    }
                }
            }
            k += 1;
        }

        // Keep only the document ids.
        let mut result: Vec<usize> = Vec::new();
        let mut w: usize = 0;
        while w < ordered.len()
            invariant
                w <= ordered@.len(),
                result@.len() == w,
                forall|a: int| 0 <= a < w ==> result@[a] == (#[trigger] ordered@[a]).0,
            decreases ordered@.len() - w,
        {
            result.push(ordered[w].0);
            w += 1;
        }
        proof {
            let resv = result@;
            let ordv = ordered@;
            let surv = survivors@;
            assert(surv.take(surv.len() as int) =~= surv);
            assert forall|d: usize| #[trigger] resv.contains(d) <==> is_survivor(p, lens, d) by {
                if resv.contains(d) {
                    let a = choose|a: int| 0 <= a < resv.len() && resv[a] == d;
                    assert(ordv.contains(ordv[a]));
                    assert(surv.contains(ordv[a]));
                    assert(triple_valid(p, lens, ordv[a]));
                }
                if is_survivor(p, lens, d) {
                    let ki = choose|ki: int| 0 <= ki < p.doc_ids.len() && p.doc_ids[ki] == d;
                    assert(survivor_in_prefix(p, lens, d, nt as int));
                    let a = choose|a: int| 0 <= a < surv.len() && surv[a].0 == d;
                    assert(surv.contains(surv[a]));
                    assert(ordv.contains(surv[a]));
                    let b = choose|b: int| 0 <= b < ordv.len() && ordv[b] == surv[a];
                    assert(resv[b] == d);
                }
            }
            assert forall|a: int, b: int| 0 <= a < b < resv.len() implies resv[a] != resv[b] by {
                assert(ordv[a].0 != ordv[b].0);
            }
            assert forall|a: int, b: int| 0 <= a < b < resv.len() implies score_ge(
                p.freq_of(resv[a]),
                lens[resv[a]] as int,
                p.freq_of(resv[b]),
                lens[resv[b]] as int,
                n as int,
                nt as int,
            ) by {
                assert(ordv.contains(ordv[a]));
                assert(ordv.contains(ordv[b]));
                assert(surv.contains(ordv[a]));
                assert(surv.contains(ordv[b]));
                let a2 = choose|a2: int| 0 <= a2 < surv.len() && surv[a2] == ordv[a];
                let b2 = choose|b2: int| 0 <= b2 < surv.len() && surv[b2] == ordv[b];
                assert(triple_valid(p, lens, surv[a2]));
                assert(triple_valid(p, lens, surv[b2]));
                assert(score_ge_tr(ordv[a], ordv[b], n as int, nt as int));
            }
            if resv.len() == 0 {
                assert forall|d: usize| !is_survivor(p, lens, d) by {
                    if is_survivor(p, lens, d) {
                        assert(resv.contains(d));
                    }
                }
            } else {
                assert(resv.contains(resv[0]));
            }
            assert(p == self@.postings[q@]);
            assert(lens == self@.doc_lens);
            assert(n == lens.len());
            assert(nt == p.doc_ids.len());
            assert(resv.no_duplicates()) by {
                assert forall|a: int, b: int|
                    0 <= a < resv.len() && 0 <= b < resv.len() && a != b implies resv[a]
                    != resv[b] by {
                    if a < b {
                        assert(ordv[a].0 != ordv[b].0);
                    } else {
                        assert(ordv[b].0 != ordv[a].0);
                    }
                }
            }
        }
        Some(result)
    }

    /// The posting list of `term`, if the term was ever indexed.
    pub fn posting(&self, term: &str) -> (r: Option<&PostingList>)
        requires
            self.wf(),
        ensures
            match r {
                Some(pl) => self@.postings.contains_key(term@) && pl@ == self@.postings[term@],
                None => !self@.postings.contains_key(term@),
            },
    {
        let ts: String = term.to_owned();
        match find_term(&self.postings, &ts) {
            Some(j) => {
                proof {
                    lemma_key_index_is(self.postings@, term@, j as int);
                }
                Some(&self.postings[j].1)
            },
            None => None,
        }
    }

    /// The recorded token count of `doc_id`, if the document was ever
    /// ingested.
    pub fn doc_length(&self, doc_id: usize) -> (r: Option<usize>)
        ensures
            match r {
                Some(l) => self@.doc_lens.contains_key(doc_id) && l == self@.doc_lens[doc_id],
                None => !self@.doc_lens.contains_key(doc_id),
            },
    {
        match self.doc_lengths.get(&doc_id) {
            Some(l) => Some(*l),
            None => None,
        }
    }

    /// How many terms have a posting list.
    pub fn num_terms(&self) -> (r: usize)
        requires
            self.wf(),
        ensures
            r == self@.postings.len(),
    {
        let r = self.postings.len();
        proof {
            broadcast use vstd::seq_lib::seq_to_set_is_finite;
            broadcast use vstd::set::group_set_axioms;

            let s = self.postings@;
            let keys = Seq::new(s.len(), |i: int| s[i].0@);
            assert(keys.no_duplicates());
            keys.unique_seq_to_set();
            assert forall|t: Seq<char>| #[trigger] has_key(s, t) implies keys.contains(t) by {
                let a = choose|a: int| 0 <= a < s.len() && s[a].0@ == t;
                assert(keys[a] == t);
            }
            assert forall|t: Seq<char>| #[trigger] keys.contains(t) implies has_key(s, t) by {
                let a = choose|a: int| 0 <= a < keys.len() && keys[a] == t;
                assert(s[a].0@ == t);
            }
            assert(self@.postings.dom() =~= keys.to_set());
        }
        r
    }

    /// How many documents have a recorded length.
    pub fn num_docs(&self) -> (r: usize)
        ensures
            r == self@.doc_lens.len(),
    {
        self.doc_lengths.len()
    }
}

impl Default for InvertedIndex {
    /// The empty index: no terms, no recorded document lengths.
    fn default() -> (r: Self)
        ensures
            r.wf(),
            r@ == IndexModel::empty(),
    {
        let r = Self { postings: Vec::new(), doc_lengths: HashMap::new() };
        proof {
            assert(r@.postings =~= IndexModel::empty().postings);
            assert(r@.doc_lens =~= IndexModel::empty().doc_lens);
        }
        r
    }
}

} // verus!
