//! A disjunctive query over several terms: per segment, resolves each term's
//! postings, merges them into a union, and scores or explains documents.
use vstd::prelude::*;

use crate::postings::{docs_ascending, holds_doc, DocId, Posting, SegmentPostings, SkipResult};
use crate::scorer::{
    contribution, explains, idf_value, idf_weight, score_of, tf_weight, weight_sum, Explanation,
    TermMatch, TfIdfScorer, COORD_ONE, IDF_ONE,
};
use crate::union::{in_union, matches_at, matches_upto, norm_at, tf_at, UnionPostings, UnionState};

verus! {

/// A term: a field identifier and the term's bytes.
#[derive(Clone, Debug, PartialEq, Eq)]
pub struct Term {
    pub field: u32,
    pub value: Vec<u8>,
}

/// What one segment holds for one term: its postings and the field norms of
/// the term's field.
#[derive(Clone, Debug, PartialEq, Eq)]
pub struct TermPostings {
    pub postings: Vec<Posting>,
    pub fieldnorms: Vec<u32>,
}

/// Where a document lives in the index: its segment's ordinal and its
/// identifier in that segment.
#[derive(Clone, Copy, Debug, PartialEq, Eq)]
pub struct DocAddress {
    pub segment_ord: u32,
    pub doc: DocId,
}

/// A document of one segment with its score.
#[derive(Clone, Copy, Debug, PartialEq, Eq)]
pub struct ScoredDoc {
    pub score: u128,
    pub doc: DocId,
}

/// Why a query could not give a result.
#[derive(Clone, Debug, PartialEq, Eq)]
pub enum QueryError {
    /// The document explained matches none of the query's terms.
    NoSuchMatch,
    /// A collaborator that reads a segment failed; its message.
    ResolutionFailure(String),
}

/// Postings lists of the terms among the first `k` that the segment holds,
/// in term order.
pub open spec fn kept_lists(res: Seq<Option<TermPostings>>, k: int) -> Seq<Seq<Posting>>
    decreases k,
{
    if k <= 0 {
        Seq::empty()
    } else {
        let rest = kept_lists(res, k - 1);
        match res[k - 1] {
            Some(tp) => rest.push(tp.postings@),
            None => rest,
        }
    }
}

/// Ordinals of the terms among the first `k` that the segment holds.
pub open spec fn kept_ords(res: Seq<Option<TermPostings>>, k: int) -> Seq<usize>
    decreases k,
{
    if k <= 0 {
        Seq::empty()
    } else {
        let rest = kept_ords(res, k - 1);
        match res[k - 1] {
            Some(tp) => rest.push((k - 1) as usize),
            None => rest,
        }
    }
}

/// Field norms of the terms among the first `k` that the segment holds.
pub open spec fn kept_norms(res: Seq<Option<TermPostings>>, k: int) -> Seq<Seq<u32>>
    decreases k,
{
    if k <= 0 {
        Seq::empty()
    } else {
        let rest = kept_norms(res, k - 1);
        match res[k - 1] {
            Some(tp) => rest.push(tp.fieldnorms@),
            None => rest,
        }
    }
}

/// Every postings list that the segment holds strictly ascends.
pub open spec fn resolved_well_formed(res: Seq<Option<TermPostings>>) -> bool {
    forall|i: int|
        0 <= i < res.len() ==> match #[trigger] res[i] {
            Some(tp) => docs_ascending(tp.postings@),
            None => true,
        }
}

/// Document `d` holds at least one of the terms that the segment holds.
pub open spec fn segment_matches(res: Seq<Option<TermPostings>>, d: DocId) -> bool {
    in_union(kept_lists(res, res.len() as int), d)
}

/// Score of document `d` of a segment, for a query with idf weights `idfs`.
pub open spec fn segment_score(res: Seq<Option<TermPostings>>, idfs: Seq<u32>, d: DocId) -> int {
    score_of(
        idfs,
        matches_at(
            kept_lists(res, res.len() as int),
            kept_ords(res, res.len() as int),
            kept_norms(res, res.len() as int),
            d,
        ),
    )
}

/// The terms of a query in one segment, as (what the segment holds for the
/// term, the term's idf weight) pairs in term order.
pub open spec fn term_stats(res: Seq<Option<TermPostings>>, idfs: Seq<u32>) -> Seq<
    (Option<TermPostings>, u32),
> {
    Seq::new(res.len(), |i: int| (res[i], idfs[i]))
}

spec fn stat_hit(st: (Option<TermPostings>, u32), d: DocId) -> int {
    match st.0 {
        Some(tp) => if holds_doc(tp.postings@, d) {
            1
        } else {
            0
        },
        None => 0,
    }
}

spec fn stat_weight(st: (Option<TermPostings>, u32), d: DocId) -> int {
    match st.0 {
        Some(tp) => if holds_doc(tp.postings@, d) {
            st.1 as int * tf_weight(tf_at(tp.postings@, d), norm_at(tp.fieldnorms@, d))
        } else {
            0
        },
        None => 0,
    }
}

spec fn stats_sum(
    ss: Seq<(Option<TermPostings>, u32)>,
    f: spec_fn((Option<TermPostings>, u32)) -> int,
) -> int
    decreases ss.len(),
{
    if ss.len() == 0 {
        0
    } else {
        stats_sum(ss.drop_last(), f) + f(ss.last())
    }
}

proof fn lemma_stats_sum_remove(
    ss: Seq<(Option<TermPostings>, u32)>,
    f: spec_fn((Option<TermPostings>, u32)) -> int,
    j: int,
)
    requires
        0 <= j < ss.len(),
    ensures
        stats_sum(ss, f) == f(ss[j]) + stats_sum(ss.remove(j), f),
    decreases ss.len(),
{
    if j == ss.len() - 1 {
        assert(ss.remove(j) =~= ss.drop_last());
    } else {
        lemma_stats_sum_remove(ss.drop_last(), f, j);
        assert(ss.remove(j).drop_last() =~= ss.drop_last().remove(j));
        assert(ss.remove(j).last() == ss.last());
    }
}

proof fn lemma_stats_sum_permutation(
    a: Seq<(Option<TermPostings>, u32)>,
    b: Seq<(Option<TermPostings>, u32)>,
    f: spec_fn((Option<TermPostings>, u32)) -> int,
)
    requires
        a.to_multiset() == b.to_multiset(),
    ensures
        stats_sum(a, f) == stats_sum(b, f),
    decreases a.len(),
{
    broadcast use vstd::seq_lib::group_to_multiset_ensures;

    if a.len() == 0 {
        assert(a.to_multiset().len() == 0);
        assert(b.len() == 0);
    } else {
        let x = a.last();
        assert(a =~= a.drop_last().push(x));
        assert(a.to_multiset().count(x) > 0);
        assert(b.contains(x));
        let j = choose|j: int| 0 <= j < b.len() && b[j] == x;
        assert(b.remove(j).to_multiset() == b.to_multiset().remove(x));
        assert(a.drop_last().to_multiset() =~= a.to_multiset().remove(x));
        lemma_stats_sum_permutation(a.drop_last(), b.remove(j), f);
        lemma_stats_sum_remove(b, f, j);
    }
}

proof fn lemma_matches_upto_extend(
    lists: Seq<Seq<Posting>>,
    ords: Seq<usize>,
    norms: Seq<Seq<u32>>,
    x: Seq<Posting>,
    o: usize,
    nx: Seq<u32>,
    d: DocId,
    c: int,
)
    requires
        0 <= c <= lists.len(),
        lists.len() == ords.len(),
        lists.len() == norms.len(),
    ensures
        matches_upto(lists.push(x), ords.push(o), norms.push(nx), d, c) == matches_upto(
            lists,
            ords,
            norms,
            d,
            c,
        ),
    decreases c,
{
    if c > 0 {
        lemma_matches_upto_extend(lists, ords, norms, x, o, nx, d, c - 1);
        assert(lists.push(x)[c - 1] == lists[c - 1]);
        assert(ords.push(o)[c - 1] == ords[c - 1]);
        assert(norms.push(nx)[c - 1] == norms[c - 1]);
    }
}

proof fn lemma_kept_matches(res: Seq<Option<TermPostings>>, idfs: Seq<u32>, d: DocId, k: int)
    requires
        res.len() == idfs.len(),
        res.len() <= usize::MAX,
        0 <= k <= res.len(),
    ensures
        kept_lists(res, k).len() == kept_ords(res, k).len(),
        kept_lists(res, k).len() == kept_norms(res, k).len(),
        matches_at(kept_lists(res, k), kept_ords(res, k), kept_norms(res, k), d).len() == stats_sum(
            term_stats(res, idfs).take(k),
            |st: (Option<TermPostings>, u32)| stat_hit(st, d),
        ),
        weight_sum(
            idfs,
            matches_at(kept_lists(res, k), kept_ords(res, k), kept_norms(res, k), d),
        ) == stats_sum(
            term_stats(res, idfs).take(k),
            |st: (Option<TermPostings>, u32)| stat_weight(st, d),
        ),
    decreases k,
{
    let ts = term_stats(res, idfs);
    let fh = |st: (Option<TermPostings>, u32)| stat_hit(st, d);
    let fw = |st: (Option<TermPostings>, u32)| stat_weight(st, d);
    if k == 0 {
        assert(ts.take(0).len() == 0);
    } else {
        lemma_kept_matches(res, idfs, d, k - 1);
        assert(ts.take(k).drop_last() =~= ts.take(k - 1));
        assert(ts.take(k).last() == (res[k - 1], idfs[k - 1]));
        let l0 = kept_lists(res, k - 1);
        let o0 = kept_ords(res, k - 1);
        let n0 = kept_norms(res, k - 1);
        let m0 = matches_at(l0, o0, n0, d);
        assert(stats_sum(ts.take(k), fw) == stats_sum(ts.take(k - 1), fw) + stat_weight(
            (res[k - 1], idfs[k - 1]),
            d,
        ));
        assert(stats_sum(ts.take(k), fh) == stats_sum(ts.take(k - 1), fh) + stat_hit(
            (res[k - 1], idfs[k - 1]),
            d,
        ));
        match res[k - 1] {
            Some(tp) => {
                lemma_matches_upto_extend(
                    l0,
                    o0,
                    n0,
                    tp.postings@,
                    (k - 1) as usize,
                    tp.fieldnorms@,
                    d,
                    l0.len() as int,
                );
                let l1 = kept_lists(res, k);
                assert(l1 == l0.push(tp.postings@));
                assert(l1[l0.len() as int] == tp.postings@);
                if holds_doc(tp.postings@, d) {
                    let m = TermMatch {
                        ord: (k - 1) as usize,
                        tf: tf_at(tp.postings@, d),
                        fieldnorm: norm_at(tp.fieldnorms@, d),
                    };
                    let m1 = matches_at(l1, kept_ords(res, k), kept_norms(res, k), d);
                    assert(m1 == m0.push(m));
                    assert(m0.push(m).drop_last() =~= m0);
                    assert(weight_sum(idfs, m1) == weight_sum(idfs, m0) + contribution(idfs, m));
                    assert(m.ord as int == k - 1);
                }
            },
            None => {},
        }
    }
}

/// The score of a document does not depend on the order of the query's
/// terms: two queries whose terms, each with what the segment holds for it
/// and its idf weight, are the same up to order give every document of the
/// segment the same score.
pub proof fn lemma_segment_score_term_order_independent(
    res1: Seq<Option<TermPostings>>,
    idfs1: Seq<u32>,
    res2: Seq<Option<TermPostings>>,
    idfs2: Seq<u32>,
    d: DocId,
)
    requires
        res1.len() == idfs1.len(),
        res2.len() == idfs2.len(),
        res1.len() <= usize::MAX,
        res2.len() <= usize::MAX,
        term_stats(res1, idfs1).to_multiset() == term_stats(res2, idfs2).to_multiset(),
    ensures
        segment_score(res1, idfs1, d) == segment_score(res2, idfs2, d),
{
    broadcast use vstd::seq_lib::group_to_multiset_ensures;

    let t1 = term_stats(res1, idfs1);
    let t2 = term_stats(res2, idfs2);
    let fh = |st: (Option<TermPostings>, u32)| stat_hit(st, d);
    let fw = |st: (Option<TermPostings>, u32)| stat_weight(st, d);
    lemma_kept_matches(res1, idfs1, d, res1.len() as int);
    lemma_kept_matches(res2, idfs2, d, res2.len() as int);
    assert(t1.take(res1.len() as int) =~= t1);
    assert(t2.take(res2.len() as int) =~= t2);
    lemma_stats_sum_permutation(t1, t2, fh);
    lemma_stats_sum_permutation(t1, t2, fw);
    assert(t1.len() == t1.to_multiset().len());
    assert(t2.len() == t2.to_multiset().len());
}

/// A disjunctive query: matches the documents that hold at least one of its
/// terms.
#[derive(Debug, PartialEq, Eq)]
pub struct MultiTermQuery {
    terms: Vec<Term>,
}

impl MultiTermQuery {
    /// The terms, in the order given; a term's position is its ordinal.
    pub closed spec fn terms(&self) -> Seq<Term> {
        self.terms@
    }

    /// A query over `terms`, kept in the order given.
    pub fn new(terms: Vec<Term>) -> (r: MultiTermQuery)
        ensures
            r.terms() == terms@,
    {
        MultiTermQuery { terms }
    }

    /// Number of terms of the query.
    pub fn num_terms(&self) -> (r: usize)
        ensures
            r == self.terms().len(),
    {
        self.terms.len()
    }

    /// The terms of the query, in order.
    pub fn term_list(&self) -> (r: &Vec<Term>)
        ensures
            r@ == self.terms(),
    {
        &self.terms
    }

    /// The scorer for this query, from each term's document frequency and
    /// the fixed-point log of the ratio of documents to that frequency.
    pub fn scorer(&self, doc_freqs: &Vec<u64>, log_ratios: &Vec<u32>) -> (r: TfIdfScorer)
        requires
            doc_freqs@.len() == self.terms().len(),
            log_ratios@.len() == self.terms().len(),
            self.terms().len() <= COORD_ONE,
            forall|i: int| 0 <= i < log_ratios@.len() ==> #[trigger] log_ratios@[i] <= u32::MAX - IDF_ONE,
        ensures
            r.wf(),
            r.idfs().len() == self.terms().len(),
            forall|i: int|
                0 <= i < r.idfs().len() ==> #[trigger] r.idfs()[i] == idf_value(
                    doc_freqs@[i],
                    log_ratios@[i],
                ),
            r.matches().len() == 0,
    {
        let n = self.terms.len();
        let mut idfs: Vec<u32> = Vec::new();
        let mut i: usize = 0;
        while i < n
            invariant
                n == doc_freqs@.len(),
                n == log_ratios@.len(),
                i <= n,
                idfs@.len() == i,
                forall|j: int| 0 <= j < n ==> #[trigger] log_ratios@[j] <= u32::MAX - IDF_ONE,
                forall|j: int|
                    0 <= j < i ==> #[trigger] idfs@[j] == idf_value(doc_freqs@[j], log_ratios@[j]),
            decreases n - i,
        {
            idfs.push(idf_weight(doc_freqs[i], log_ratios[i]));
            i = i + 1;
        }
        TfIdfScorer::new(idfs)
    }

    /// The union of this query's terms in one segment. `resolved[i]` is what
    /// the segment holds for term `i`, `None` where it lacks the term; such
    /// terms are left out. The union scores with a fresh copy of `scorer`.
    pub fn search_segment(&self, resolved: Vec<Option<TermPostings>>, scorer: &TfIdfScorer) -> (r:
        UnionPostings)
        requires
            resolved@.len() == self.terms().len(),
            scorer.wf(),
            scorer.idfs().len() == self.terms().len(),
            resolved_well_formed(resolved@),
        ensures
            r.wf(),
            r.state() == UnionState::Unstarted,
            r.lists() == kept_lists(resolved@, resolved@.len() as int),
            r.ords() == kept_ords(resolved@, resolved@.len() as int),
            r.norms() == kept_norms(resolved@, resolved@.len() as int),
            r.idfs() == scorer.idfs(),
    {
        let ghost orig = resolved@;
        let mut resolved = resolved;
        let n = resolved.len();
        let mut cursors: Vec<SegmentPostings> = Vec::new();
        let mut ords: Vec<usize> = Vec::new();
        let mut norms: Vec<Vec<u32>> = Vec::new();
        let mut i: usize = 0;
        while i < n
            invariant
                n == orig.len(),
                n == resolved@.len(),
                n == scorer.idfs().len(),
                i <= n,
                resolved_well_formed(orig),
                forall|j: int| i <= j < n ==> #[trigger] resolved@[j] == orig[j],
                cursors@.len() == ords@.len(),
                cursors@.len() == norms@.len(),
                cursors@.len() <= i,
                Seq::new(cursors@.len(), |c: int| cursors@[c].postings()) == kept_lists(
                    orig,
                    i as int,
                ),
                ords@ == kept_ords(orig, i as int),
                Seq::new(norms@.len(), |c: int| norms@[c]@) == kept_norms(orig, i as int),
                forall|c: int|
                    0 <= c < cursors@.len() ==> (#[trigger] cursors@[c]).wf()
                        && !cursors@[c].started(),
                forall|c: int| 0 <= c < ords@.len() ==> #[trigger] ords@[c] < i,
            decreases n - i,
        {
            let entry = resolved[i].take();
            match entry {
                Some(tp) => {
                    assert(docs_ascending(tp.postings@));
                    let ghost lists0 = Seq::new(cursors@.len(), |c: int| cursors@[c].postings());
                    let ghost norms0 = Seq::new(norms@.len(), |c: int| norms@[c]@);
                    cursors.push(SegmentPostings::new(tp.postings));
                    ords.push(i);
                    norms.push(tp.fieldnorms);
                    assert(Seq::new(cursors@.len(), |c: int| cursors@[c].postings()) =~= lists0.push(
                        tp.postings@,
                    ));
                    assert(Seq::new(norms@.len(), |c: int| norms@[c]@) =~= norms0.push(
                        tp.fieldnorms@,
                    ));
                },
                None => {},
            }
            i = i + 1;
        }
        let fresh = scorer.for_segment();
        let ghost fn_lists = Seq::new(cursors@.len(), |c: int| cursors@[c].postings());
        let ghost fn_norms = Seq::new(norms@.len(), |c: int| norms@[c]@);
        let r = UnionPostings::new(cursors, ords, norms, fresh);
        assert(r.lists() =~= fn_lists);
        assert(r.norms() =~= fn_norms);
        r
    }

    /// Every document of one segment that holds at least one of the query's
    /// terms, in ascending order, once each, with its score.
    pub fn search_segment_docs(&self, resolved: Vec<Option<TermPostings>>, scorer: &TfIdfScorer) -> (r:
        Vec<ScoredDoc>)
        requires
            resolved@.len() == self.terms().len(),
            scorer.wf(),
            scorer.idfs().len() == self.terms().len(),
            resolved_well_formed(resolved@),
        ensures
            forall|i: int, j: int| 0 <= i < j < r@.len() ==> #[trigger] r@[i].doc < #[trigger] r@[j].doc,
            forall|d: DocId|
                segment_matches(resolved@, d) <==> exists|i: int|
                    0 <= i < r@.len() && #[trigger] r@[i].doc == d,
            forall|i: int|
                0 <= i < r@.len() ==> #[trigger] r@[i].score == segment_score(
                    resolved@,
                    scorer.idfs(),
                    r@[i].doc,
                ),
    {
        let mut union = self.search_segment(resolved, scorer);
        collect_all(&mut union)
    }

    /// The breakdown of the score of document `target` of one segment, or
    /// `NoSuchMatch` where the document holds none of the query's terms.
    pub fn explain_segment(
        &self,
        resolved: Vec<Option<TermPostings>>,
        scorer: &TfIdfScorer,
        target: DocId,
    ) -> (r: Result<Explanation, QueryError>)
        requires
            resolved@.len() == self.terms().len(),
            scorer.wf(),
            scorer.idfs().len() == self.terms().len(),
            resolved_well_formed(resolved@),
        ensures
            r is Ok <==> segment_matches(resolved@, target),
            r is Ok ==> explains(
                r->Ok_0,
                scorer.idfs(),
                matches_at(
                    kept_lists(resolved@, resolved@.len() as int),
                    kept_ords(resolved@, resolved@.len() as int),
                    kept_norms(resolved@, resolved@.len() as int),
                    target,
                ),
            ),
            r is Err ==> r->Err_0 == QueryError::NoSuchMatch,
    {
        let mut union = self.search_segment(resolved, scorer);
        match union.skip_next(target) {
            SkipResult::Reached => {
                let e = union.scorer().explain_score();
                Ok(e)
            },
            _ => Err(QueryError::NoSuchMatch),
        }
    }
}

/// Drives a fresh union to exhaustion and returns every document it walks,
/// with its score.
pub fn collect_all(union: &mut UnionPostings) -> (r: Vec<ScoredDoc>)
    requires
        old(union).wf(),
        old(union).state() == UnionState::Unstarted,
    ensures
        final(union).wf(),
        final(union).state() == UnionState::Exhausted,
        final(union).lists() == old(union).lists(),
        final(union).ords() == old(union).ords(),
        final(union).norms() == old(union).norms(),
        final(union).idfs() == old(union).idfs(),
        forall|i: int, j: int| 0 <= i < j < r@.len() ==> #[trigger] r@[i].doc < #[trigger] r@[j].doc,
        forall|d: DocId|
            in_union(old(union).lists(), d) <==> exists|i: int|
                0 <= i < r@.len() && #[trigger] r@[i].doc == d,
        forall|i: int|
            0 <= i < r@.len() ==> #[trigger] r@[i].score == score_of(
                old(union).idfs(),
                matches_at(old(union).lists(), old(union).ords(), old(union).norms(), r@[i].doc),
            ),
{
    let ghost lists = union.lists();
    let ghost ords = union.ords();
    let ghost norms = union.norms();
    let ghost idfs = union.idfs();
    let mut out: Vec<ScoredDoc> = Vec::new();
    loop
        invariant_except_break
            union.state() != UnionState::Exhausted,
        invariant
            union.wf(),
            union.lists() == lists,
            union.ords() == ords,
            union.norms() == norms,
            union.idfs() == idfs,
            union.state() == UnionState::Unstarted ==> out@.len() == 0,
            union.state() == UnionState::Active ==> out@.len() > 0 && out@.last().doc
                == union.current_doc(),
            forall|i: int, j: int|
                0 <= i < j < out@.len() ==> #[trigger] out@[i].doc < #[trigger] out@[j].doc,
            forall|i: int|
                0 <= i < out@.len() ==> in_union(lists, #[trigger] out@[i].doc) && out@[i].score
                    == score_of(idfs, matches_at(lists, ords, norms, out@[i].doc)),
            forall|d: DocId|
                in_union(lists, d) && !union.pending(d) ==> exists|i: int|
                    0 <= i < out@.len() && #[trigger] out@[i].doc == d,
        ensures
            union.wf(),
            union.state() == UnionState::Exhausted,
            union.lists() == lists,
            union.ords() == ords,
            union.norms() == norms,
            union.idfs() == idfs,
            forall|i: int, j: int|
                0 <= i < j < out@.len() ==> #[trigger] out@[i].doc < #[trigger] out@[j].doc,
            forall|i: int|
                0 <= i < out@.len() ==> in_union(lists, #[trigger] out@[i].doc) && out@[i].score
                    == score_of(idfs, matches_at(lists, ords, norms, out@[i].doc)),
            forall|d: DocId|
                in_union(lists, d) ==> exists|i: int|
                    0 <= i < out@.len() && #[trigger] out@[i].doc == d,
        decreases (if union.state() == UnionState::Unstarted {
            0x1_0000_0000int
        } else {
            u32::MAX - union.current_doc()
        }),
    {
        let ghost before = *union;
        let ghost out0 = out@;
        if !union.advance() {
            break;
        }
        let score = union.score();
        let doc = union.doc();
        out.push(ScoredDoc { score, doc });
        proof {
            assert forall|i: int, j: int|
                0 <= i < j < out@.len() implies #[trigger] out@[i].doc < #[trigger] out@[j].doc by {
                if j == out@.len() - 1 && before.state() == UnionState::Active {
                    assert(out0.last().doc == before.current_doc());
                    if i < out0.len() - 1 {
                        assert(out0[i].doc < out0.last().doc);
                    }
                }
            }
            assert forall|d: DocId| in_union(lists, d) && !union.pending(d) implies exists|i: int|
                0 <= i < out@.len() && #[trigger] out@[i].doc == d by {
                if d == doc {
                    assert(out@[out@.len() - 1].doc == d);
                } else if before.pending(d) {
                    assert(doc <= d);
                } else {
                    let i = choose|i: int| 0 <= i < out0.len() && #[trigger] out0[i].doc == d;
                    assert(out@[i].doc == d);
                }
            }
        }
    }
    out
}

} // verus!
