//! The union of the postings of several terms: a k-way merge that walks
//! every document held by at least one term, in ascending order, once each,
//! and scores it from all the terms found there.
use vstd::multiset::Multiset;
use vstd::prelude::*;

use crate::postings::{holds_doc, DocId, Posting, SegmentPostings, SkipResult};
use crate::scorer::{lemma_score_order_independent, score_of, TermMatch, TfIdfScorer};

verus! {

/// Where a union stands: before its first document, on a document, or past
/// its last one (for good).
#[derive(Clone, Copy, Debug, PartialEq, Eq)]
pub enum UnionState {
    Unstarted,
    Active,
    Exhausted,
}

/// Document `d` is held by at least one of the lists.
pub open spec fn in_union(lists: Seq<Seq<Posting>>, d: DocId) -> bool {
    exists|c: int| 0 <= c < lists.len() && holds_doc(#[trigger] lists[c], d)
}

/// Term frequency recorded for document `d` in a list that holds it.
pub open spec fn tf_at(list: Seq<Posting>, d: DocId) -> u32 {
    list[choose|i: int| 0 <= i < list.len() && #[trigger] list[i].doc == d].tf
}

/// Field norm of document `d`; documents past the end of the table have norm zero.
pub open spec fn norm_at(norms: Seq<u32>, d: DocId) -> u32 {
    if (d as int) < norms.len() {
        norms[d as int]
    } else {
        0
    }
}

/// The matches at document `d` of the first `c` terms, in term order.
pub open spec fn matches_upto(
    lists: Seq<Seq<Posting>>,
    ords: Seq<usize>,
    norms: Seq<Seq<u32>>,
    d: DocId,
    c: int,
) -> Seq<TermMatch>
    decreases c,
{
    if c <= 0 {
        Seq::empty()
    } else {
        let rest = matches_upto(lists, ords, norms, d, c - 1);
        if holds_doc(lists[c - 1], d) {
            rest.push(
                TermMatch {
                    ord: ords[c - 1],
                    tf: tf_at(lists[c - 1], d),
                    fieldnorm: norm_at(norms[c - 1], d),
                },
            )
        } else {
            rest
        }
    }
}

/// The matches at document `d` of every term whose list holds it.
pub open spec fn matches_at(
    lists: Seq<Seq<Posting>>,
    ords: Seq<usize>,
    norms: Seq<Seq<u32>>,
    d: DocId,
) -> Seq<TermMatch> {
    matches_upto(lists, ords, norms, d, lists.len() as int)
}

/// Document `d` lies at or below where a union in `state` at `doc` stands.
pub open spec fn below_floor(state: UnionState, doc: DocId, d: DocId) -> bool {
    match state {
        UnionState::Unstarted => false,
        UnionState::Active => d <= doc,
        UnionState::Exhausted => true,
    }
}

spec fn lists_of(cs: Seq<SegmentPostings>) -> Seq<Seq<Posting>> {
    Seq::new(cs.len(), |c: int| cs[c].postings())
}

spec fn consumed_below(cs: Seq<SegmentPostings>, below: spec_fn(DocId) -> bool) -> bool {
    forall|c: int, i: int|
        0 <= c < cs.len() && 0 <= i < cs[c].cursor() ==> below(#[trigger] cs[c].postings()[i].doc)
}

spec fn currents_above(cs: Seq<SegmentPostings>, below: spec_fn(DocId) -> bool) -> bool {
    forall|c: int| 0 <= c < cs.len() && #[trigger] cs[c].active() ==> !below(cs[c].current().doc)
}

spec fn downward_closed(below: spec_fn(DocId) -> bool) -> bool {
    forall|x: DocId, y: DocId| x <= y && #[trigger] below(y) ==> #[trigger] below(x)
}

spec fn cursors_ok(cs: Seq<SegmentPostings>) -> bool {
    forall|c: int| 0 <= c < cs.len() ==> (#[trigger] cs[c]).wf() && cs[c].started()
}

/// A list whose entries below the cursor lie under the floor, and whose
/// current entry is the least of all current entries, holds `m` exactly when
/// its cursor stands on `m`.
proof fn lemma_holds_iff_current(p: SegmentPostings, below: spec_fn(DocId) -> bool, m: DocId)
    requires
        p.wf(),
        p.started(),
        forall|i: int| 0 <= i < p.cursor() ==> below(#[trigger] p.postings()[i].doc),
        !below(m),
        p.active() ==> p.current().doc >= m,
    ensures
        holds_doc(p.postings(), m) <==> (p.active() && p.current().doc == m),
        holds_doc(p.postings(), m) ==> tf_at(p.postings(), m) == p.current().tf,
{
    let s = p.postings();
    if holds_doc(s, m) {
        let i = choose|i: int| 0 <= i < s.len() && #[trigger] s[i].doc == m;
        assert(i >= p.cursor()) by {
            if i < p.cursor() {
                assert(below(s[i].doc));
            }
        }
        if i > p.cursor() {
            assert(s[p.cursor()].doc < s[i].doc);
        }
        assert(i == p.cursor());
        let j = choose|j: int| 0 <= j < s.len() && #[trigger] s[j].doc == m;
        if j != i {
            if j < i {
                assert(s[j].doc < s[i].doc);
            } else {
                assert(s[i].doc < s[j].doc);
            }
        }
    }
    if p.active() && p.current().doc == m {
        assert(s[p.cursor()].doc == m);
    }
}

/// The terms of a union as (postings, query ordinal, field norms) triples.
pub open spec fn term_triples(
    lists: Seq<Seq<Posting>>,
    ords: Seq<usize>,
    norms: Seq<Seq<u32>>,
) -> Seq<(Seq<Posting>, usize, Seq<u32>)> {
    Seq::new(lists.len(), |c: int| (lists[c], ords[c], norms[c]))
}

spec fn triple_matches(t: (Seq<Posting>, usize, Seq<u32>), d: DocId) -> Multiset<TermMatch> {
    if holds_doc(t.0, d) {
        Multiset::singleton(TermMatch { ord: t.1, tf: tf_at(t.0, d), fieldnorm: norm_at(t.2, d) })
    } else {
        Multiset::empty()
    }
}

spec fn triples_matches(ts: Seq<(Seq<Posting>, usize, Seq<u32>)>, d: DocId) -> Multiset<TermMatch>
    decreases ts.len(),
{
    if ts.len() == 0 {
        Multiset::empty()
    } else {
        triples_matches(ts.drop_last(), d).add(triple_matches(ts.last(), d))
    }
}

proof fn lemma_matches_upto_multiset(
    lists: Seq<Seq<Posting>>,
    ords: Seq<usize>,
    norms: Seq<Seq<u32>>,
    d: DocId,
    c: int,
)
    requires
        lists.len() == ords.len(),
        lists.len() == norms.len(),
        0 <= c <= lists.len(),
    ensures
        matches_upto(lists, ords, norms, d, c).to_multiset() == triples_matches(
            term_triples(lists, ords, norms).take(c),
            d,
        ),
    decreases c,
{
    let ts = term_triples(lists, ords, norms);
    if c == 0 {
        let e = matches_upto(lists, ords, norms, d, c);
        e.to_multiset_ensures();
        vstd::multiset::lemma_multiset_empty_len(e.to_multiset());
        assert(e.to_multiset() =~= Multiset::empty());
    } else {
        lemma_matches_upto_multiset(lists, ords, norms, d, c - 1);
        assert(ts.take(c).drop_last() =~= ts.take(c - 1));
        assert(ts.take(c).last() == ts[c - 1]);
        let rest = matches_upto(lists, ords, norms, d, c - 1);
        if holds_doc(lists[c - 1], d) {
            let m = TermMatch {
                ord: ords[c - 1],
                tf: tf_at(lists[c - 1], d),
                fieldnorm: norm_at(norms[c - 1], d),
            };
            rest.to_multiset_ensures();
            assert(rest.push(m).to_multiset() =~= rest.to_multiset().add(Multiset::singleton(m)));
        } else {
            assert(rest.to_multiset().add(Multiset::empty()) =~= rest.to_multiset());
        }
    }
}

proof fn lemma_triples_matches_remove(ts: Seq<(Seq<Posting>, usize, Seq<u32>)>, d: DocId, j: int)
    requires
        0 <= j < ts.len(),
    ensures
        triples_matches(ts, d) == triple_matches(ts[j], d).add(triples_matches(ts.remove(j), d)),
    decreases ts.len(),
{
    if j == ts.len() - 1 {
        assert(ts.remove(j) =~= ts.drop_last());
        assert(triples_matches(ts, d) =~= triple_matches(ts[j], d).add(
            triples_matches(ts.remove(j), d),
        ));
    } else {
        lemma_triples_matches_remove(ts.drop_last(), d, j);
        assert(ts.remove(j).drop_last() =~= ts.drop_last().remove(j));
        assert(ts.remove(j).last() == ts.last());
        assert(triples_matches(ts, d) =~= triple_matches(ts[j], d).add(
            triples_matches(ts.remove(j), d),
        ));
    }
}

proof fn lemma_triples_matches_permutation(
    a: Seq<(Seq<Posting>, usize, Seq<u32>)>,
    b: Seq<(Seq<Posting>, usize, Seq<u32>)>,
    d: DocId,
)
    requires
        a.to_multiset() == b.to_multiset(),
    ensures
        triples_matches(a, d) == triples_matches(b, d),
    decreases a.len(),
{
    broadcast use vstd::seq_lib::group_to_multiset_ensures;

    if a.len() == 0 {
        assert(a.to_multiset().len() == 0);
        assert(b.len() == 0);
    } else {
        let x = a.last();
        assert(a =~= a.drop_last().push(x));
        assert(a.to_multiset().count(x) > 0);
        assert(b.contains(x));
        let j = choose|j: int| 0 <= j < b.len() && b[j] == x;
        assert(b.remove(j).to_multiset() == b.to_multiset().remove(x));
        assert(a.drop_last().to_multiset() =~= a.to_multiset().remove(x));
        lemma_triples_matches_permutation(a.drop_last(), b.remove(j), d);
        lemma_triples_matches_remove(b, d, j);
        assert(triples_matches(a, d) =~= triples_matches(b, d));
    }
}

/// The score of a document does not depend on the order in which the terms
/// were given to the union: two unions over the same terms, in any order,
/// give every document the same score.
pub proof fn lemma_union_score_order_independent(
    idfs: Seq<u32>,
    lists1: Seq<Seq<Posting>>,
    ords1: Seq<usize>,
    norms1: Seq<Seq<u32>>,
    lists2: Seq<Seq<Posting>>,
    ords2: Seq<usize>,
    norms2: Seq<Seq<u32>>,
    d: DocId,
)
    requires
        lists1.len() == ords1.len(),
        lists1.len() == norms1.len(),
        lists2.len() == ords2.len(),
        lists2.len() == norms2.len(),
        term_triples(lists1, ords1, norms1).to_multiset() == term_triples(
            lists2,
            ords2,
            norms2,
        ).to_multiset(),
    ensures
        score_of(idfs, matches_at(lists1, ords1, norms1, d)) == score_of(
            idfs,
            matches_at(lists2, ords2, norms2, d),
        ),
{
    let t1 = term_triples(lists1, ords1, norms1);
    let t2 = term_triples(lists2, ords2, norms2);
    lemma_matches_upto_multiset(lists1, ords1, norms1, d, lists1.len() as int);
    lemma_matches_upto_multiset(lists2, ords2, norms2, d, lists2.len() as int);
    assert(t1.take(lists1.len() as int) =~= t1);
    assert(t2.take(lists2.len() as int) =~= t2);
    lemma_triples_matches_permutation(t1, t2, d);
    lemma_score_order_independent(
        idfs,
        matches_at(lists1, ords1, norms1, d),
        matches_at(lists2, ords2, norms2, d),
    );
}

/// Field norm of document `d` in `norms`, zero past the end of the table.
pub fn norm_lookup(norms: &Vec<u32>, d: DocId) -> (r: u32)
    ensures
        r == norm_at(norms@, d),
{
    if (d as usize) < norms.len() {
        norms[d as usize]
    } else {
        0
    }
}

/// The union of the postings of several terms of one query in one segment.
///
/// Each term brings its postings cursor, its ordinal in the query and the
/// field norms of its field. Documents come out in ascending order, each
/// once, and the scorer holds the matches of every term at the current one.
pub struct UnionPostings {
    cursors: Vec<SegmentPostings>,
    ords: Vec<usize>,
    fieldnorms: Vec<Vec<u32>>,
    scorer: TfIdfScorer,
    state: UnionState,
    doc: DocId,
}

impl UnionPostings {
    /// The postings list of each term.
    pub closed spec fn lists(&self) -> Seq<Seq<Posting>> {
        lists_of(self.cursors@)
    }

    /// The query ordinal of each term.
    pub closed spec fn ords(&self) -> Seq<usize> {
        self.ords@
    }

    /// The field norms of each term's field.
    pub closed spec fn norms(&self) -> Seq<Seq<u32>> {
        Seq::new(self.fieldnorms@.len(), |c: int| self.fieldnorms@[c]@)
    }

    pub closed spec fn state(&self) -> UnionState {
        self.state
    }

    /// The document the union stands on, while active.
    pub closed spec fn current_doc(&self) -> DocId {
        self.doc
    }

    /// The scorer's idf weights.
    pub closed spec fn idfs(&self) -> Seq<u32> {
        self.scorer.idfs()
    }

    /// The matches the scorer holds.
    pub closed spec fn matches(&self) -> Seq<TermMatch> {
        self.scorer.matches()
    }

    /// Document `d` is in the union and lies past where the union stands.
    pub open spec fn pending(&self, d: DocId) -> bool {
        in_union(self.lists(), d) && !below_floor(self.state(), self.current_doc(), d)
    }

    closed spec fn shape_ok(&self) -> bool {
        &&& self.cursors@.len() == self.ords@.len()
        &&& self.cursors@.len() == self.fieldnorms@.len()
        &&& self.cursors@.len() <= self.scorer.idfs().len()
        &&& self.scorer.wf()
        &&& cursors_ok(self.cursors@)
        &&& forall|c: int| 0 <= c < self.ords@.len() ==> #[trigger] self.ords@[c] < self.scorer.idfs().len()
    }

    pub closed spec fn wf(&self) -> bool {
        let below = |d: DocId| below_floor(self.state, self.doc, d);
        &&& self.shape_ok()
        &&& consumed_below(self.cursors@, below)
        &&& currents_above(self.cursors@, below)
        &&& self.state == UnionState::Exhausted ==> forall|c: int|
            0 <= c < self.cursors@.len() ==> !(#[trigger] self.cursors@[c]).active()
        &&& self.state == UnionState::Active ==> {
            &&& in_union(self.lists(), self.doc)
            &&& self.scorer.matches() == matches_at(
                self.lists(),
                self.ords@,
                self.norms(),
                self.doc,
            )
        }
    }

    /// The union of the given term cursors, none of them moved yet, that
    /// scores with `scorer`.
    pub fn new(
        postings: Vec<SegmentPostings>,
        ords: Vec<usize>,
        fieldnorms: Vec<Vec<u32>>,
        scorer: TfIdfScorer,
    ) -> (r: UnionPostings)
        requires
            postings@.len() == ords@.len(),
            postings@.len() == fieldnorms@.len(),
            postings@.len() <= scorer.idfs().len(),
            scorer.wf(),
            forall|c: int|
                0 <= c < postings@.len() ==> (#[trigger] postings@[c]).wf() && !postings@[c].started(),
            forall|c: int| 0 <= c < ords@.len() ==> #[trigger] ords@[c] < scorer.idfs().len(),
        ensures
            r.wf(),
            r.lists() == Seq::new(postings@.len(), |c: int| postings@[c].postings()),
            r.ords() == ords@,
            r.norms() == Seq::new(fieldnorms@.len(), |c: int| fieldnorms@[c]@),
            r.idfs() == scorer.idfs(),
            r.state() == UnionState::Unstarted,
    {
        let ghost orig = postings@;
        let mut cursors = postings;
        let n = cursors.len();
        let mut c: usize = 0;
        while c < n
            invariant
                n == cursors@.len(),
                n == orig.len(),
                c <= n,
                forall|j: int| 0 <= j < n ==> (#[trigger] orig[j]).wf() && !orig[j].started(),
                forall|j: int|
                    0 <= j < n ==> (#[trigger] cursors@[j]).postings() == orig[j].postings(),
                forall|j: int|
                    0 <= j < c ==> (#[trigger] cursors@[j]).wf() && cursors@[j].started()
                        && cursors@[j].cursor() == 0,
                forall|j: int| c <= j < n ==> #[trigger] cursors@[j] == orig[j],
            decreases n - c,
        {
            assert(orig[c as int].wf());
            cursors[c].advance();
            c = c + 1;
        }
        let r = UnionPostings {
            cursors,
            ords,
            fieldnorms,
            scorer,
            state: UnionState::Unstarted,
            doc: 0,
        };
        assert(r.lists() =~= Seq::new(orig.len(), |c: int| orig[c].postings()));
        r
    }

    /// One round of the merge: takes the least current document of all
    /// cursors, feeds every term that stands on it to the scorer, and moves
    /// those cursors past it.
    fn next_round(&mut self, Ghost(below): Ghost<spec_fn(DocId) -> bool>) -> (r: bool)
        requires
            old(self).shape_ok(),
            consumed_below(old(self).cursors@, below),
            currents_above(old(self).cursors@, below),
            downward_closed(below),
        ensures
            final(self).wf(),
            final(self).lists() == old(self).lists(),
            final(self).ords() == old(self).ords(),
            final(self).norms() == old(self).norms(),
            final(self).idfs() == old(self).idfs(),
            r <==> final(self).state() == UnionState::Active,
            !r ==> final(self).state() == UnionState::Exhausted,
            r ==> !below(final(self).current_doc()) && in_union(
                final(self).lists(),
                final(self).current_doc(),
            ),
            r ==> forall|d: DocId|
                in_union(final(self).lists(), d) && !below(d) ==> final(self).current_doc() <= d,
            !r ==> forall|d: DocId| in_union(final(self).lists(), d) ==> below(d),
    {
        let n = self.cursors.len();
        let ghost snap = self.cursors@;
        let ghost lists = lists_of(snap);
        let mut found = false;
        let mut m: DocId = 0;
        let mut c: usize = 0;
        while c < n
            invariant
                self.shape_ok(),
                self.cursors@ == snap,
                n == snap.len(),
                c <= n,
                found ==> exists|j: int|
                    0 <= j < c && (#[trigger] snap[j]).active() && snap[j].current().doc == m,
                found ==> forall|j: int|
                    0 <= j < c && (#[trigger] snap[j]).active() ==> snap[j].current().doc >= m,
                !found ==> forall|j: int| 0 <= j < c ==> !(#[trigger] snap[j]).active(),
            decreases n - c,
        {
            assert(snap[c as int].wf());
            if self.cursors[c].is_active() {
                let d = self.cursors[c].doc();
                if !found || d < m {
                    m = d;
                    found = true;
                }
            }
            c = c + 1;
        }
        if !found {
            self.state = UnionState::Exhausted;
            proof {
                assert forall|d: DocId| in_union(lists, d) implies below(d) by {
                    let j = choose|j: int| 0 <= j < lists.len() && holds_doc(#[trigger] lists[j], d);
                    let i = choose|i: int|
                        0 <= i < lists[j].len() && #[trigger] lists[j][i].doc == d;
                    assert(!snap[j].active());
                    assert(snap[j].postings()[i].doc == d);
                }
                assert(self.lists() == lists);
            }
            return false;
        }
        proof {
            assert forall|j: int| 0 <= j < n implies (holds_doc(lists[j], m) <==> (
            #[trigger] snap[j]).active() && snap[j].current().doc == m) && (holds_doc(lists[j], m)
                ==> tf_at(lists[j], m) == snap[j].current().tf) by {
                let jw = choose|jw: int|
                    0 <= jw < c && (#[trigger] snap[jw]).active() && snap[jw].current().doc == m;
                assert(!below(m));
                assert(snap[j].wf() && snap[j].started());
                assert forall|i: int| 0 <= i < snap[j].cursor() implies below(
                    #[trigger] snap[j].postings()[i].doc,
                ) by {}
                lemma_holds_iff_current(snap[j], below, m);
            }
        }
        self.scorer.clear();
        let ghost norms = self.norms();
        let ghost ords = self.ords@;
        let mut c: usize = 0;
        while c < n
            invariant
                self.cursors@.len() == n,
                n == snap.len(),
                c <= n,
                self.ords@ == ords,
                norms == Seq::new(self.fieldnorms@.len(), |k: int| self.fieldnorms@[k]@),
                self.ords@.len() == n,
                self.fieldnorms@.len() == n,
                n <= self.scorer.idfs().len(),
                self.scorer.idfs() == old(self).scorer.idfs(),
                self.scorer.wf(),
                forall|k: int| 0 <= k < n ==> #[trigger] self.ords@[k] < self.scorer.idfs().len(),
                lists == lists_of(snap),
                cursors_ok(snap),
                forall|j: int|
                    0 <= j < n ==> (holds_doc(lists[j], m) <==> (#[trigger] snap[j]).active()
                        && snap[j].current().doc == m),
                forall|j: int|
                    0 <= j < n ==> (holds_doc(#[trigger] lists[j], m) ==> tf_at(lists[j], m)
                        == snap[j].current().tf),
                forall|j: int| c <= j < n ==> #[trigger] self.cursors@[j] == snap[j],
                forall|j: int|
                    0 <= j < c ==> {
                        &&& (#[trigger] self.cursors@[j]).wf()
                        &&& self.cursors@[j].started()
                        &&& self.cursors@[j].postings() == snap[j].postings()
                        &&& self.cursors@[j].cursor() == if snap[j].active()
                            && snap[j].current().doc == m {
                            snap[j].cursor() + 1
                        } else {
                            snap[j].cursor()
                        }
                    },
                self.scorer.matches() == matches_upto(lists, ords, norms, m, c as int),
                self.scorer.matches().len() <= c,
            decreases n - c,
        {
            assert(snap[c as int].wf());
            if self.cursors[c].is_active() && self.cursors[c].doc() == m {
                let tf = self.cursors[c].term_freq();
                let fieldnorm = norm_lookup(&self.fieldnorms[c], m);
                let ord = self.ords[c];
                self.scorer.update(TermMatch { ord, tf, fieldnorm });
                self.cursors[c].advance();
                proof {
                    assert(holds_doc(lists[c as int], m));
                    assert(norms[c as int] == self.fieldnorms@[c as int]@);
                }
            } else {
                proof {
                    assert(!holds_doc(lists[c as int], m));
                }
            }
            c = c + 1;
        }
        self.state = UnionState::Active;
        self.doc = m;
        proof {
            let cs = self.cursors@;
            assert(lists_of(cs) =~= lists);
            assert(self.norms() == norms);
            let jw = choose|jw: int|
                0 <= jw < n && (#[trigger] snap[jw]).active() && snap[jw].current().doc == m;
            assert(!below(m));
            assert(holds_doc(lists[jw], m)) by {
                assert(lists[jw][snap[jw].cursor()].doc == m);
            }
            let nb = |d: DocId| below_floor(UnionState::Active, m, d);
            assert forall|j: int, i: int|
                0 <= j < cs.len() && 0 <= i < cs[j].cursor() implies nb(
                #[trigger] cs[j].postings()[i].doc,
            ) by {
                assert(cs[j].postings() == snap[j].postings());
                if i < snap[j].cursor() {
                    let x = snap[j].postings()[i].doc;
                    assert(below(x));
                    if x > m {
                        assert(below(m));
                    }
                }
            }
            assert forall|j: int| 0 <= j < cs.len() && #[trigger] cs[j].active() implies !nb(
                cs[j].current().doc,
            ) by {
                if snap[j].active() && snap[j].current().doc == m {
                    assert(snap[j].postings()[snap[j].cursor()].doc < snap[j].postings()[cs[j].cursor()].doc);
                } else {
                    assert(cs[j].cursor() == snap[j].cursor());
                }
            }
            assert forall|d: DocId| in_union(lists, d) && !below(d) implies m <= d by {
                let j = choose|j: int| 0 <= j < lists.len() && holds_doc(#[trigger] lists[j], d);
                let i = choose|i: int| 0 <= i < lists[j].len() && #[trigger] lists[j][i].doc == d;
                assert(snap[j].postings()[i].doc == d);
                if i < snap[j].cursor() {
                    assert(below(d));
                }
                assert(snap[j].active());
                if i > snap[j].cursor() {
                    assert(snap[j].postings()[snap[j].cursor()].doc < d);
                }
            }
        }
        true
    }

    /// Moves to the next document of the union. Returns whether there is
    /// one; it is the least document of the union past the one the union
    /// stood on (or the least of all, on the first call), and the scorer then
    /// holds the matches of every term at it. An exhausted union stays
    /// exhausted and returns `false` however often it is called.
    pub fn advance(&mut self) -> (r: bool)
        requires
            old(self).wf(),
        ensures
            final(self).wf(),
            final(self).lists() == old(self).lists(),
            final(self).ords() == old(self).ords(),
            final(self).norms() == old(self).norms(),
            final(self).idfs() == old(self).idfs(),
            r <==> final(self).state() == UnionState::Active,
            !r ==> final(self).state() == UnionState::Exhausted,
            old(self).state() == UnionState::Exhausted ==> !r,
            r ==> old(self).pending(final(self).current_doc()),
            r ==> forall|d: DocId| old(self).pending(d) ==> final(self).current_doc() <= d,
            !r ==> forall|d: DocId| !old(self).pending(d),
            r ==> final(self).matches() == matches_at(
                final(self).lists(),
                final(self).ords(),
                final(self).norms(),
                final(self).current_doc(),
            ),
    {
        let ghost st = self.state;
        let ghost cur = self.doc;
        let ghost below = |d: DocId| below_floor(st, cur, d);
        proof {
            assert(downward_closed(below));
        }
        self.next_round(Ghost(below))
    }

    /// Moves every term cursor to its first document at or past `target`,
    /// then takes the least of them as in `advance`. The union thus lands on
    /// the least document of the union that is past where it stood and not
    /// below `target`: `Reached` when that is `target` itself, `OverShot`
    /// when it lies past it, `End` when there is none. It never comes back to
    /// a document it has passed or stood on.
    pub fn skip_next(&mut self, target: DocId) -> (r: SkipResult)
        requires
            old(self).wf(),
        ensures
            final(self).wf(),
            final(self).lists() == old(self).lists(),
            final(self).ords() == old(self).ords(),
            final(self).norms() == old(self).norms(),
            final(self).idfs() == old(self).idfs(),
            r == SkipResult::End <==> final(self).state() == UnionState::Exhausted,
            r != SkipResult::End <==> final(self).state() == UnionState::Active,
            r != SkipResult::End ==> old(self).pending(final(self).current_doc())
                && final(self).current_doc() >= target,
            r != SkipResult::End && old(self).state() == UnionState::Active
                ==> final(self).current_doc() > old(self).current_doc(),
            r != SkipResult::End ==> forall|d: DocId|
                old(self).pending(d) && d >= target ==> final(self).current_doc() <= d,
            r == SkipResult::End ==> forall|d: DocId| old(self).pending(d) ==> d < target,
            r == SkipResult::Reached <==> old(self).pending(target),
            r == SkipResult::Reached <==> r != SkipResult::End && final(self).current_doc()
                == target,
            r == SkipResult::OverShot <==> r != SkipResult::End && final(self).current_doc()
                > target,
            r != SkipResult::End ==> final(self).matches() == matches_at(
                final(self).lists(),
                final(self).ords(),
                final(self).norms(),
                final(self).current_doc(),
            ),
    {
        let ghost st = self.state;
        let ghost cur = self.doc;
        let ghost snap = self.cursors@;
        let ghost floor = |d: DocId| below_floor(st, cur, d);
        let n = self.cursors.len();
        let mut c: usize = 0;
        while c < n
            invariant
                self.shape_ok(),
                n == snap.len(),
                n == self.cursors@.len(),
                c <= n,
                self.ords == old(self).ords,
                self.fieldnorms == old(self).fieldnorms,
                self.scorer == old(self).scorer,
                self.state == st,
                self.doc == cur,
                consumed_below(snap, floor),
                currents_above(snap, floor),
                cursors_ok(snap),
                forall|j: int| c <= j < n ==> #[trigger] self.cursors@[j] == snap[j],
                forall|j: int|
                    0 <= j < c ==> {
                        &&& (#[trigger] self.cursors@[j]).postings() == snap[j].postings()
                        &&& snap[j].cursor() <= self.cursors@[j].cursor()
                        &&& forall|i: int|
                            snap[j].cursor() <= i < self.cursors@[j].cursor()
                                ==> #[trigger] snap[j].postings()[i].doc < target
                        &&& self.cursors@[j].active() ==> self.cursors@[j].current().doc
                            >= target
                    },
            decreases n - c,
        {
            assert(snap[c as int].wf());
            self.cursors[c].skip_next(target);
            c = c + 1;
        }
        let ghost below = |d: DocId| below_floor(st, cur, d) || d < target;
        proof {
            let cs = self.cursors@;
            assert(downward_closed(below));
            assert forall|j: int, i: int|
                0 <= j < cs.len() && 0 <= i < cs[j].cursor() implies below(
                #[trigger] cs[j].postings()[i].doc,
            ) by {
                if i < snap[j].cursor() {
                    assert(floor(snap[j].postings()[i].doc));
                } else {
                    assert(snap[j].postings()[i].doc < target);
                }
            }
            assert forall|j: int| 0 <= j < cs.len() && #[trigger] cs[j].active() implies !below(
                cs[j].current().doc,
            ) by {
                assert(snap[j].wf());
                assert(snap[j].active());
                if cs[j].cursor() > snap[j].cursor() {
                    assert(snap[j].postings()[snap[j].cursor()].doc < snap[j].postings()[cs[j].cursor()].doc);
                }
                assert(!floor(snap[j].current().doc));
            }
            assert(lists_of(cs) =~= lists_of(snap));
        }
        let found = self.next_round(Ghost(below));
        if !found {
            SkipResult::End
        } else if self.doc == target {
            SkipResult::Reached
        } else {
            SkipResult::OverShot
        }
    }

    /// The document the union stands on.
    pub fn doc(&self) -> (r: DocId)
        requires
            self.wf(),
            self.state() == UnionState::Active,
        ensures
            r == self.current_doc(),
    {
        self.doc
    }

    /// The score of the document the union stands on.
    pub fn score(&self) -> (r: u128)
        requires
            self.wf(),
            self.state() == UnionState::Active,
        ensures
            r == score_of(
                self.idfs(),
                matches_at(self.lists(), self.ords(), self.norms(), self.current_doc()),
            ),
    {
        self.scorer.score()
    }

    /// The scorer, holding the matches at the document the union stands on.
    pub fn scorer(&self) -> (r: &TfIdfScorer)
        requires
            self.wf(),
        ensures
            r.wf(),
            r.idfs() == self.idfs(),
            r.matches() == self.matches(),
    {
        &self.scorer
    }
}

} // verus!
