//! Mathematical models of posting lists and of the whole index, together with
//! the spec-level description of what one ingestion call does and of the
//! TF-IDF score ordering that ranking obeys.

use vstd::prelude::*;

verus! {

/// Model of one term's posting list: three parallel columns.  `doc_ids` is
/// strictly increasing; `tfs[i]` counts the term's occurrences in document
/// `doc_ids[i]`; `positions[i]` lists the token offsets of those occurrences
/// in the order they were recorded.
pub ghost struct PostingModel {
    pub doc_ids: Seq<usize>,
    pub tfs: Seq<int>,
    pub positions: Seq<Seq<usize>>,
}

impl PostingModel {
    pub open spec fn empty() -> Self {
        PostingModel {
            doc_ids: Seq::<usize>::empty(),
            tfs: Seq::<int>::empty(),
            positions: Seq::<Seq<usize>>::empty(),
        }
    }

    /// The posting-list invariant: parallel columns of equal length, document
    /// ids strictly increasing, and each frequency equal to the number of
    /// recorded offsets for that document.
    pub open spec fn wf(self) -> bool {
        &&& self.tfs.len() == self.doc_ids.len()
        &&& self.positions.len() == self.doc_ids.len()
        &&& forall|i: int, j: int|
            0 <= i < j < self.doc_ids.len() ==> self.doc_ids[i] < self.doc_ids[j]
        &&& forall|i: int|
            0 <= i < self.doc_ids.len() ==> self.tfs[i] == #[trigger] self.positions[i].len()
    }

    pub open spec fn contains_doc(self, d: usize) -> bool {
        self.doc_ids.contains(d)
    }

    /// The row of document `d`; meaningful only when `contains_doc(d)`.
    pub open spec fn doc_index(self, d: usize) -> int {
        choose|i: int| 0 <= i < self.doc_ids.len() && self.doc_ids[i] == d
    }

    /// How often the term occurs in document `d` (0 when `d` is absent).
    pub open spec fn freq_of(self, d: usize) -> int {
        if self.contains_doc(d) {
            self.tfs[self.doc_index(d)]
        } else {
            0
        }
    }

    /// The recorded token offsets of the term in document `d`.
    pub open spec fn positions_of(self, d: usize) -> Seq<usize> {
        if self.contains_doc(d) {
            self.positions[self.doc_index(d)]
        } else {
            Seq::<usize>::empty()
        }
    }
}

/// In a well-formed posting list each document id names a unique row, so any
/// row holding `d` is the row that `doc_index` picks.
pub proof fn lemma_doc_index_is(p: PostingModel, d: usize, i: int)
    requires
        p.wf(),
        0 <= i < p.doc_ids.len(),
        p.doc_ids[i] == d,
    ensures
        p.contains_doc(d),
        p.doc_index(d) == i,
{
    assert(p.doc_ids.contains(d));
    let j = p.doc_index(d);
    if i < j {
        assert(p.doc_ids[i] < p.doc_ids[j]);
    } else if j < i {
        assert(p.doc_ids[j] < p.doc_ids[i]);
    }
}

/// Removing row `i` of a sequence and inserting a replacement at the same
/// spot is a pointwise update of that row.
pub proof fn lemma_remove_insert_is_update<A>(s0: Seq<A>, s1: Seq<A>, i: int, v: A)
    requires
        0 <= i < s0.len(),
        s1 == s0.remove(i).insert(i, v),
    ensures
        s1 =~= s0.update(i, v),
{
    let r = s0.remove(i);
    assert(r.subrange(0, i) =~= s0.subrange(0, i));
    assert(r.subrange(i, r.len() as int) =~= s0.subrange(i + 1, s0.len() as int));
    s0.remove_ensures(i);
    r.insert_ensures(i, v);
}

/// Inserting into a sequence adds exactly the inserted element to its
/// members.
pub proof fn lemma_insert_contains<A>(s: Seq<A>, i: int, v: A, x: A)
    requires
        0 <= i <= s.len(),
    ensures
        s.insert(i, v).contains(x) <==> s.contains(x) || x == v,
{
    s.insert_ensures(i, v);
    let s1 = s.insert(i, v);
    if s1.contains(x) {
        let a = choose|a: int| 0 <= a < s1.len() && s1[a] == x;
        if a < i {
            assert(s[a] == x);
        } else if a > i {
            assert(s[a - 1] == x);
        }
    }
    if s.contains(x) {
        let a = choose|a: int| 0 <= a < s.len() && s[a] == x;
        if a < i {
            assert(s1[a] == x);
        } else {
            assert(s1[a + 1] == x);
        }
    }
    if x == v {
        assert(s1[i] == x);
    }
}

/// Model of the whole index: per-term posting lists and each document's
/// most recently recorded token count.
pub ghost struct IndexModel {
    pub postings: Map<Seq<char>, PostingModel>,
    pub doc_lens: Map<usize, usize>,
}

impl IndexModel {
    pub open spec fn empty() -> Self {
        IndexModel {
            postings: Map::<Seq<char>, PostingModel>::empty(),
            doc_lens: Map::<usize, usize>::empty(),
        }
    }

    /// Every posting list of the index satisfies the posting-list invariant.
    pub open spec fn inv(self) -> bool {
        forall|t: Seq<char>| #[trigger] self.postings.contains_key(t) ==> self.postings[t].wf()
    }

    /// The posting list of `t`, or the empty posting list when `t` was never
    /// indexed.  Ingestion grows a term's posting from this base either way.
    pub open spec fn posting_or_empty(self, t: Seq<char>) -> PostingModel {
        posting_or_empty_in(self.postings, t)
    }
}

pub open spec fn posting_or_empty_in(m: Map<Seq<char>, PostingModel>, t: Seq<char>) -> PostingModel {
    if m.contains_key(t) {
        m[t]
    } else {
        PostingModel::empty()
    }
}

/// The ghost view of one document's token stream: `(term, offset)` pairs.
pub open spec fn tokens_view(tokens: Seq<(String, usize)>) -> Seq<(Seq<char>, usize)> {
    Seq::new(tokens.len(), |i: int| (tokens[i].0@, tokens[i].1))
}

/// How often term `t` occurs in the token stream `toks`.
pub open spec fn count_term(toks: Seq<(Seq<char>, usize)>, t: Seq<char>) -> nat
    decreases toks.len(),
{
    if toks.len() == 0 {
        0
    } else {
        count_term(toks.drop_last(), t) + (if toks.last().0 == t {
            1nat
        } else {
            0nat
        })
    }
}

/// The offsets at which term `t` occurs in `toks`, in stream order.
pub open spec fn positions_of_term(toks: Seq<(Seq<char>, usize)>, t: Seq<char>) -> Seq<usize>
    decreases toks.len(),
{
    if toks.len() == 0 {
        Seq::<usize>::empty()
    } else {
        let rest = positions_of_term(toks.drop_last(), t);
        if toks.last().0 == t {
            rest.push(toks.last().1)
        } else {
            rest
        }
    }
}

/// Occurrence counts and offset lists over a token prefix grow by exactly the
/// next token's contribution, for every term at once.
pub proof fn lemma_term_stats_step(toks: Seq<(Seq<char>, usize)>, k: int)
    requires
        0 <= k < toks.len(),
    ensures
        forall|t: Seq<char>|
            #[trigger] count_term(toks.take(k + 1), t) == count_term(toks.take(k), t) + (
            if toks[k].0 == t {
                1nat
            } else {
                0nat
            }),
        forall|t: Seq<char>|
            #[trigger] positions_of_term(toks.take(k + 1), t) == (if toks[k].0 == t {
                positions_of_term(toks.take(k), t).push(toks[k].1)
            } else {
                positions_of_term(toks.take(k), t)
            }),
{
    assert(toks.take(k + 1).drop_last() =~= toks.take(k));
    assert(toks.take(k + 1).last() == toks[k]);
}

/// A term that never occurs in a token stream has no recorded offsets there.
pub proof fn lemma_no_occurrence_no_positions(toks: Seq<(Seq<char>, usize)>, t: Seq<char>)
    requires
        count_term(toks, t) == 0,
    ensures
        positions_of_term(toks, t) == Seq::<usize>::empty(),
    decreases toks.len(),
{
    if toks.len() > 0 {
        lemma_no_occurrence_no_positions(toks.drop_last(), t);
    }
}

/// A term occurs in a token stream exactly when its occurrence count is
/// positive.
pub proof fn lemma_count_term_pos(toks: Seq<(Seq<char>, usize)>, t: Seq<char>)
    ensures
        count_term(toks, t) > 0 <==> exists|i: int| 0 <= i < toks.len() && toks[i].0 == t,
    decreases toks.len(),
{
    if toks.len() > 0 {
        lemma_count_term_pos(toks.drop_last(), t);
        if toks.last().0 == t {
            assert(toks[toks.len() - 1].0 == t);
        } else {
            if count_term(toks, t) > 0 {
                let i = choose|i: int| 0 <= i < toks.drop_last().len() && toks.drop_last()[i].0 == t;
                assert(toks[i].0 == t);
            }
            if exists|i: int| 0 <= i < toks.len() && toks[i].0 == t {
                let i = choose|i: int| 0 <= i < toks.len() && toks[i].0 == t;
                assert(toks.drop_last()[i].0 == t);
            }
        }
    }
}

/// `q` is `p` after recording `c` further occurrences of one term in document
/// `d`, at the offsets `ps`: `d`'s row is present, its frequency grew by `c`,
/// its offsets were extended by `ps`, and every other document's row is
/// untouched.
pub open spec fn posting_accum(
    p: PostingModel,
    q: PostingModel,
    d: usize,
    c: nat,
    ps: Seq<usize>,
) -> bool {
    &&& q.wf()
    &&& forall|e: usize| #[trigger] q.contains_doc(e) <==> p.contains_doc(e) || e == d
    &&& q.freq_of(d) == p.freq_of(d) + c
    &&& q.positions_of(d) == p.positions_of(d) + ps
    &&& forall|e: usize| e != d ==> #[trigger] q.freq_of(e) == p.freq_of(e)
    &&& forall|e: usize| e != d ==> #[trigger] q.positions_of(e) == p.positions_of(e)
}

/// Recording occurrences accumulates: `c1` occurrences at offsets `ps1`
/// followed by `c2` at `ps2` amount to `c1 + c2` at `ps1 + ps2`.
pub proof fn lemma_posting_accum_trans(
    a: PostingModel,
    b: PostingModel,
    q: PostingModel,
    d: usize,
    c1: nat,
    ps1: Seq<usize>,
    c2: nat,
    ps2: Seq<usize>,
)
    requires
        posting_accum(a, b, d, c1, ps1),
        posting_accum(b, q, d, c2, ps2),
    ensures
        posting_accum(a, q, d, c1 + c2, ps1 + ps2),
{
    assert(q.positions_of(d) =~= a.positions_of(d) + (ps1 + ps2));
}

/// The postings side of one ingestion call: exactly the terms of the token
/// stream gain or extend a posting, every term of the stream accumulates its
/// occurrence count and offsets onto document `d`'s row, and untouched terms
/// keep their posting lists unchanged.
pub open spec fn ingests_postings(
    pre: Map<Seq<char>, PostingModel>,
    post: Map<Seq<char>, PostingModel>,
    d: usize,
    toks: Seq<(Seq<char>, usize)>,
) -> bool {
    &&& forall|t: Seq<char>|
        #![trigger post.contains_key(t)]
        #![trigger pre.contains_key(t)]
        #![trigger count_term(toks, t)]
        post.contains_key(t) <==> pre.contains_key(t) || count_term(toks, t) > 0
    &&& forall|t: Seq<char>|
        #![trigger post[t]]
        #![trigger pre[t]]
        #![trigger count_term(toks, t)]
        pre.contains_key(t) && count_term(toks, t) == 0 ==> post[t] == pre[t]
    &&& forall|t: Seq<char>|
        #![trigger post[t]]
        #![trigger count_term(toks, t)]
        count_term(toks, t) > 0 ==> posting_accum(
            posting_or_empty_in(pre, t),
            post[t],
            d,
            count_term(toks, t),
            positions_of_term(toks, t),
        )
}

/// One loop step of ingestion: if the postings relate to the base map by the
/// first `k` tokens, and token `k`'s term accumulates one occurrence onto the
/// current map, the result relates to the base map by the first `k + 1`
/// tokens.
pub proof fn lemma_ingest_step(
    m0: Map<Seq<char>, PostingModel>,
    mk: Map<Seq<char>, PostingModel>,
    mk1: Map<Seq<char>, PostingModel>,
    d: usize,
    toks: Seq<(Seq<char>, usize)>,
    k: int,
    q: PostingModel,
)
    requires
        0 <= k < toks.len(),
        ingests_postings(m0, mk, d, toks.take(k)),
        posting_accum(posting_or_empty_in(mk, toks[k].0), q, d, 1, seq![toks[k].1]),
        mk1 == mk.insert(toks[k].0, q),
    ensures
        ingests_postings(m0, mk1, d, toks.take(k + 1)),
{
    lemma_term_stats_step(toks, k);
    let t0 = toks[k].0;
    let pos = toks[k].1;
    let c0 = count_term(toks.take(k), t0);
    let ps0 = positions_of_term(toks.take(k), t0);
    let base0 = posting_or_empty_in(m0, t0);
    let base_k = posting_or_empty_in(mk, t0);
    if c0 > 0 {
        lemma_posting_accum_trans(base0, mk[t0], q, d, c0, ps0, 1, seq![pos]);
        assert(ps0.push(pos) =~= ps0 + seq![pos]);
        assert(posting_accum(base0, q, d, c0 + 1, ps0.push(pos)));
    } else {
        lemma_no_occurrence_no_positions(toks.take(k), t0);
        assert(base_k == base0);
        assert(ps0.push(pos) =~= seq![pos]);
        assert(posting_accum(base0, q, d, c0 + 1, ps0.push(pos)));
    }
    assert forall|t: Seq<char>|
        count_term(toks.take(k + 1), t) > 0 implies posting_accum(
        posting_or_empty_in(m0, t),
        mk1[t],
        d,
        count_term(toks.take(k + 1), t),
        positions_of_term(toks.take(k + 1), t),
    ) by {
        if t == t0 {
            assert(mk1[t] == q);
        } else {
            assert(count_term(toks.take(k), t) == count_term(toks.take(k + 1), t));
            assert(mk1[t] == mk[t]);
        }
    }
}

/// What one ingestion call does to the whole index: the document's recorded
/// length is overwritten with the new token count `n`, while the postings
/// accumulate additively.
pub open spec fn ingests(
    pre: IndexModel,
    post: IndexModel,
    d: usize,
    toks: Seq<(Seq<char>, usize)>,
    n: usize,
) -> bool {
    &&& post.doc_lens == pre.doc_lens.insert(d, n)
    &&& ingests_postings(pre.postings, post.postings, d, toks)
}

/// A document of the posting list can be scored: it has a recorded,
/// non-zero length.
pub open spec fn is_survivor(p: PostingModel, lens: Map<usize, usize>, d: usize) -> bool {
    p.contains_doc(d) && lens.contains_key(d) && lens[d] > 0
}

/// With `n` documents of recorded length and `nt` documents carrying the
/// term, a document with term frequency `f1` and length `l1` scores at least
/// as high under TF-IDF as one with `f2` and `l2`.  The score is
/// `(f/l) * log10(n/nt)`; the factor `log10(n/nt)` is shared, so only its
/// sign and the comparison of the ratios `f1/l1` and `f2/l2` matter, and the
/// ratios compare as the cross products do.
pub open spec fn score_ge(f1: int, l1: int, f2: int, l2: int, n: int, nt: int) -> bool {
    if n > nt {
        f1 * l2 >= f2 * l1
    } else if n == nt {
        true
    } else {
        f1 * l2 <= f2 * l1
    }
}

/// The score ordering is total.
pub proof fn lemma_score_ge_total(f1: int, l1: int, f2: int, l2: int, n: int, nt: int)
    ensures
        score_ge(f1, l1, f2, l2, n, nt) || score_ge(f2, l2, f1, l1, n, nt),
{
}

/// The score ordering is transitive over scorable documents (positive
/// lengths).
pub proof fn lemma_score_ge_trans(
    f1: int,
    l1: int,
    f2: int,
    l2: int,
    f3: int,
    l3: int,
    n: int,
    nt: int,
)
    requires
        l1 >= 1,
        l2 >= 1,
        l3 >= 1,
        f1 >= 0,
        f2 >= 0,
        f3 >= 0,
        score_ge(f1, l1, f2, l2, n, nt),
        score_ge(f2, l2, f3, l3, n, nt),
    ensures
        score_ge(f1, l1, f3, l3, n, nt),
{
    if n > nt {
        assert(f1 * l3 >= f3 * l1) by (nonlinear_arith)
            requires
                l1 >= 1,
                l2 >= 1,
                l3 >= 1,
                f1 * l2 >= f2 * l1,
                f2 * l3 >= f3 * l2,
        ;
    } else if n < nt {
        assert(f1 * l3 <= f3 * l1) by (nonlinear_arith)
            requires
                l1 >= 1,
                l2 >= 1,
                l3 >= 1,
                f1 * l2 <= f2 * l1,
                f2 * l3 <= f3 * l2,
        ;
    }
}

} // verus!
