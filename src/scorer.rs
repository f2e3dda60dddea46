//! TF-IDF scoring with query coordination, in fixed-point integers.
//!
//! Weights are integers on fixed scales: an idf of one is `IDF_ONE`, a term
//! frequency of one in a field of norm zero weighs `TF_UNIT`, and a query whose
//! terms all match has coordination `COORD_ONE`. `TF_UNIT` is large enough
//! that a term found at a document weighs at least one whatever the field's
//! norm, and a query has at most `COORD_ONE` terms, so that the coordination
//! factor rises with every matched term.
use vstd::prelude::*;

verus! {

broadcast use vstd::seq_lib::group_to_multiset_ensures;

/// Fixed-point scale of an idf weight.
pub const IDF_ONE: u32 = 1024;

/// Fixed-point scale of a term-frequency weight.
pub const TF_UNIT: u64 = 0x1_0000_0000;

/// Fixed-point scale of the coordination factor.
pub const COORD_ONE: u64 = 65536;

/// One query term found at a document: its ordinal in the query, its term
/// frequency there, and the document's field norm.
#[derive(Clone, Copy, Debug, PartialEq, Eq)]
pub struct TermMatch {
    pub ord: usize,
    pub tf: u32,
    pub fieldnorm: u32,
}

/// The breakdown of one matched term in an explanation.
#[derive(Clone, Copy, Debug, PartialEq, Eq)]
pub struct TermExplanation {
    pub ord: usize,
    pub idf: u32,
    pub tf: u32,
    pub fieldnorm: u32,
    /// `idf` times the term-frequency weight.
    pub weight: u128,
}

/// How a document's score is made up: the coordination factor, times the sum
/// of the weights of the matched terms, is the total.
#[derive(Clone, Debug, PartialEq, Eq)]
pub struct Explanation {
    pub coord: u64,
    pub terms: Vec<TermExplanation>,
    pub total: u128,
}

/// Weight of a term frequency in a field of the given norm: grows with the
/// frequency, shrinks as the field gets longer.
pub open spec fn tf_weight(tf: u32, fieldnorm: u32) -> int {
    (tf as int * TF_UNIT as int) / (fieldnorm as int + 1)
}

/// The idf weight of a term: one when no document holds the term, otherwise
/// one plus the (fixed-point) log of the ratio of documents to the term's
/// document frequency.
pub open spec fn idf_value(doc_freq: u64, log_ratio: u32) -> int {
    if doc_freq == 0 {
        IDF_ONE as int
    } else {
        IDF_ONE as int + log_ratio as int
    }
}

/// Coordination factor when `k` of `n` query terms match.
pub open spec fn coord_value(k: int, n: int) -> int {
    if n == 0 {
        0
    } else {
        k * COORD_ONE as int / n
    }
}

/// What one matched term adds to the weight sum.
pub open spec fn contribution(idfs: Seq<u32>, m: TermMatch) -> int {
    idfs[m.ord as int] as int * tf_weight(m.tf, m.fieldnorm)
}

pub open spec fn weight_sum(idfs: Seq<u32>, ms: Seq<TermMatch>) -> int
    decreases ms.len(),
{
    if ms.len() == 0 {
        0
    } else {
        weight_sum(idfs, ms.drop_last()) + contribution(idfs, ms.last())
    }
}

/// Score of a document at which the terms `ms` matched.
pub open spec fn score_of(idfs: Seq<u32>, ms: Seq<TermMatch>) -> int {
    coord_value(ms.len() as int, idfs.len() as int) * weight_sum(idfs, ms)
}

/// Every match names a term of the query.
pub open spec fn matches_in_query(n: int, ms: Seq<TermMatch>) -> bool {
    forall|i: int| 0 <= i < ms.len() ==> (#[trigger] ms[i]).ord < n
}

/// The idf weight of a term, given its document frequency and the fixed-point
/// log of the ratio of documents to that frequency. A term that no document
/// holds gets the neutral weight one.
pub fn idf_weight(doc_freq: u64, log_ratio: u32) -> (r: u32)
    requires
        log_ratio <= u32::MAX - IDF_ONE,
    ensures
        r == idf_value(doc_freq, log_ratio),
        doc_freq == 0 ==> r == IDF_ONE,
{
    if doc_freq == 0 {
        IDF_ONE
    } else {
        IDF_ONE + log_ratio
    }
}

/// A term that no document holds gets the neutral idf weight one, whatever
/// log ratio comes with it.
pub proof fn lemma_zero_doc_freq_neutral(log_ratio: u32)
    ensures
        idf_value(0, log_ratio) == IDF_ONE,
{
}

/// The term-frequency weight of `tf` in a field of norm `fieldnorm`.
pub fn term_weight(tf: u32, fieldnorm: u32) -> (r: u64)
    ensures
        r == tf_weight(tf, fieldnorm),
        r <= tf as int * TF_UNIT as int,
        tf > 0 ==> r > 0,
{
    proof {
        assert(tf as int * 0x1_0000_0000 <= 0xffff_ffff * 0x1_0000_0000) by (nonlinear_arith)
            requires
                tf <= 0xffff_ffff,
        ;
        lemma_tf_weight_positive(tf, fieldnorm);
        let a = tf as int * TF_UNIT as int;
        let b = fieldnorm as int + 1;
        assert(a / b <= a) by (nonlinear_arith)
            requires
                a >= 0,
                b >= 1,
        ;
    }
    (tf as u64 * TF_UNIT) / (fieldnorm as u64 + 1)
}

/// A term that occurs at all weighs something, however long the field.
pub proof fn lemma_tf_weight_positive(tf: u32, fieldnorm: u32)
    ensures
        tf > 0 ==> tf_weight(tf, fieldnorm) > 0,
{
    if tf > 0 {
        let a = tf as int * 0x1_0000_0000;
        let b = fieldnorm as int + 1;
        assert(a / b >= 1) by (nonlinear_arith)
            requires
                a >= 0x1_0000_0000,
                1 <= b <= 0x1_0000_0000,
        ;
    }
}

/// The coordination table of a query of `n` terms: entry `k` is the factor
/// for `k` matched terms.
pub fn coordination_table(n: usize) -> (r: Vec<u64>)
    requires
        n <= COORD_ONE,
    ensures
        r@.len() == n + 1,
        forall|k: int| 0 <= k <= n ==> #[trigger] r@[k] == coord_value(k, n as int),
        forall|k: int| 0 <= k < n ==> #[trigger] r@[k] < r@[k + 1],
{
    proof {
        if n > 0 {
            lemma_coord_strictly_increasing(n as int);
        }
    }
    let mut table: Vec<u64> = Vec::new();
    let mut k: usize = 0;
    while k <= n
        invariant
            n <= COORD_ONE,
            k <= n + 1,
            table@.len() == k,
            forall|i: int| 0 <= i < k ==> #[trigger] table@[i] == coord_value(i, n as int),
        decreases n + 1 - k,
    {
        let v: u64 = if n == 0 {
            0
        } else {
            proof {
                let kk = k as int;
                let nn = n as int;
                assert(kk * 65536 <= nn * 65536) by (nonlinear_arith)
                    requires
                        kk <= nn,
                ;
                assert(kk * 65536 / nn <= 65536) by (nonlinear_arith)
                    requires
                        kk <= nn,
                        nn > 0,
                        kk >= 0,
                ;
            }
            (k as u64 * COORD_ONE) / (n as u64)
        };
        table.push(v);
        k = k + 1;
    }
    table
}

proof fn lemma_contribution_bound(idfs: Seq<u32>, m: TermMatch)
    requires
        m.ord < idfs.len(),
    ensures
        0 <= contribution(idfs, m) <= max_contribution(),
{
    let w = tf_weight(m.tf, m.fieldnorm);
    let a = m.tf as int * TF_UNIT as int;
    let b = m.fieldnorm as int + 1;
    assert(0 <= a / b <= a) by (nonlinear_arith)
        requires
            a >= 0,
            b >= 1,
    ;
    let idf = idfs[m.ord as int] as int;
    assert(0 <= idf * w <= 0xffff_ffff * (0xffff_ffff * 0x1_0000_0000)) by (nonlinear_arith)
        requires
            0 <= idf <= 0xffff_ffff,
            0 <= w <= a,
            a == m.tf as int * 0x1_0000_0000,
            0 <= m.tf <= 0xffff_ffff,
    ;
}

/// Removing the match at `j` takes exactly its contribution off the sum.
proof fn lemma_weight_sum_remove(idfs: Seq<u32>, ms: Seq<TermMatch>, j: int)
    requires
        0 <= j < ms.len(),
    ensures
        weight_sum(idfs, ms) == contribution(idfs, ms[j]) + weight_sum(idfs, ms.remove(j)),
    decreases ms.len(),
{
    if j == ms.len() - 1 {
        assert(ms.remove(j) =~= ms.drop_last());
    } else {
        lemma_weight_sum_remove(idfs, ms.drop_last(), j);
        assert(ms.remove(j).drop_last() =~= ms.drop_last().remove(j));
        assert(ms.remove(j).last() == ms.last());
    }
}

/// The weight sum depends on which terms matched, not on the order in which
/// they were fed to the scorer.
pub proof fn lemma_weight_sum_permutation(idfs: Seq<u32>, a: Seq<TermMatch>, b: Seq<TermMatch>)
    requires
        a.to_multiset() == b.to_multiset(),
    ensures
        weight_sum(idfs, a) == weight_sum(idfs, b),
    decreases a.len(),
{
    if a.len() == 0 {
        assert(a.to_multiset().len() == 0);
        assert(b.len() == 0);
    } else {
        let x = a.last();
        assert(a =~= a.drop_last().push(x));
        assert(a.to_multiset().count(x) > 0);
        assert(b.contains(x));
        let j = choose|j: int| 0 <= j < b.len() && b[j] == x;
        assert(b.remove(j).to_multiset() == b.to_multiset().remove(x));
        assert(a.drop_last().to_multiset() =~= a.to_multiset().remove(x));
        lemma_weight_sum_permutation(idfs, a.drop_last(), b.remove(j));
        lemma_weight_sum_remove(idfs, b, j);
    }
}

/// A document's score is the coordination factor for the number of matched
/// terms times the sum of their weighted contributions, whatever the order in
/// which the matches were fed to the scorer.
pub proof fn lemma_score_order_independent(idfs: Seq<u32>, a: Seq<TermMatch>, b: Seq<TermMatch>)
    requires
        a.to_multiset() == b.to_multiset(),
    ensures
        score_of(idfs, a) == score_of(idfs, b),
{
    lemma_weight_sum_permutation(idfs, a, b);
    assert(a.len() == a.to_multiset().len());
}

/// For two matched terms `x` and `z` the score is the coordination factor for
/// two terms times the sum of both contributions, in either order.
pub proof fn lemma_score_of_two(idfs: Seq<u32>, x: TermMatch, z: TermMatch)
    ensures
        score_of(idfs, seq![x, z]) == coord_value(2, idfs.len() as int) * (contribution(idfs, x)
            + contribution(idfs, z)),
        score_of(idfs, seq![x, z]) == score_of(idfs, seq![z, x]),
{
    assert(seq![x, z].drop_last() =~= seq![x]);
    assert(seq![z, x].drop_last() =~= seq![z]);
    assert(seq![x].drop_last() =~= Seq::<TermMatch>::empty());
    assert(seq![z].drop_last() =~= Seq::<TermMatch>::empty());
    reveal_with_fuel(weight_sum, 3);
    assert(seq![x].last() == x);
    assert(seq![z].last() == z);
    assert(seq![x, z].last() == z);
    assert(seq![z, x].last() == x);
    assert(weight_sum(idfs, seq![x]) == contribution(idfs, x));
    assert(weight_sum(idfs, seq![z]) == contribution(idfs, z));
    assert(weight_sum(idfs, seq![x, z]) == contribution(idfs, x) + contribution(idfs, z));
    assert(weight_sum(idfs, seq![z, x]) == contribution(idfs, x) + contribution(idfs, z));
}

/// More occurrences of a term never weigh less.
pub proof fn lemma_tf_weight_monotone_in_tf(tf1: u32, tf2: u32, fieldnorm: u32)
    requires
        tf1 <= tf2,
    ensures
        tf_weight(tf1, fieldnorm) <= tf_weight(tf2, fieldnorm),
{
    let b = fieldnorm as int + 1;
    let a1 = tf1 as int * 0x1_0000_0000;
    let a2 = tf2 as int * 0x1_0000_0000;
    assert(a1 / b <= a2 / b) by (nonlinear_arith)
        requires
            0 <= a1 <= a2,
            b >= 1,
    ;
}

/// The same number of occurrences never weighs more in a longer field.
pub proof fn lemma_tf_weight_antitone_in_fieldnorm(tf: u32, norm1: u32, norm2: u32)
    requires
        norm1 <= norm2,
    ensures
        tf_weight(tf, norm2) <= tf_weight(tf, norm1),
{
    let a = tf as int * 0x1_0000_0000;
    let b1 = norm1 as int + 1;
    let b2 = norm2 as int + 1;
    assert(a / b2 <= a / b1) by (nonlinear_arith)
        requires
            a >= 0,
            1 <= b1 <= b2,
    ;
}

proof fn lemma_coord_bound(k: int, n: int)
    requires
        0 <= k <= n,
    ensures
        0 <= coord_value(k, n) <= COORD_ONE,
{
    if n > 0 {
        assert(0 <= k * 65536 / n <= 65536) by (nonlinear_arith)
            requires
                0 <= k <= n,
                n > 0,
        ;
    }
}

/// For a query of at most `COORD_ONE` terms, each further matched term
/// raises the coordination factor.
pub proof fn lemma_coord_strictly_increasing(n: int)
    requires
        0 < n <= COORD_ONE,
    ensures
        forall|k: int| 0 <= k < n ==> #[trigger] coord_value(k, n) < coord_value(k + 1, n),
        coord_value(0, n) == 0,
        coord_value(n, n) == COORD_ONE,
{
    assert forall|k: int| 0 <= k < n implies #[trigger] coord_value(k, n) < coord_value(k + 1, n) by {
        assert(k * 65536 / n < (k + 1) * 65536 / n) by (nonlinear_arith)
            requires
                0 <= k < n,
                0 < n <= 65536,
        ;
    }
    assert(n * 65536 / n == 65536) by (nonlinear_arith)
        requires
            n > 0,
    ;
}

/// Largest contribution one matched term can make.
pub open spec fn max_contribution() -> int {
    0xffff_ffff * (0xffff_ffff * 0x1_0000_0000int)
}

/// `e` is the breakdown of the score of a document at which the terms `ms`
/// matched: one entry per match, in order, and the total score.
pub open spec fn explains(e: Explanation, idfs: Seq<u32>, ms: Seq<TermMatch>) -> bool {
    &&& e.terms@.len() == ms.len()
    &&& forall|i: int|
        0 <= i < ms.len() ==> {
            let t = #[trigger] e.terms@[i];
            let m = ms[i];
            &&& t.ord == m.ord
            &&& t.tf == m.tf
            &&& t.fieldnorm == m.fieldnorm
            &&& t.idf == idfs[m.ord as int]
            &&& t.weight == contribution(idfs, m)
        }
    &&& e.coord == coord_value(ms.len() as int, idfs.len() as int)
    &&& e.total == score_of(idfs, ms)
}

/// Scores documents one at a time from the query terms found at each.
///
/// Holds, for a query of `n` terms (at most `COORD_ONE`, so that each further
/// matched term raises the coordination factor), the idf weight of each term and the
/// coordination factor for each number of matched terms, and collects the
/// matches of the document at hand.
pub struct TfIdfScorer {
    coords: Vec<u64>,
    idfs: Vec<u32>,
    matches: Vec<TermMatch>,
}

impl TfIdfScorer {
    /// The idf weight of each query term, by ordinal.
    pub closed spec fn idfs(&self) -> Seq<u32> {
        self.idfs@
    }

    /// The matches of the document at hand, in the order they were fed.
    pub closed spec fn matches(&self) -> Seq<TermMatch> {
        self.matches@
    }

    pub closed spec fn wf(&self) -> bool {
        &&& self.idfs@.len() <= COORD_ONE
        &&& self.coords@.len() == self.idfs@.len() + 1
        &&& forall|k: int|
            0 <= k <= self.idfs@.len() ==> #[trigger] self.coords@[k] == coord_value(
                k,
                self.idfs@.len() as int,
            )
        &&& self.matches@.len() <= self.idfs@.len()
        &&& matches_in_query(self.idfs@.len() as int, self.matches@)
    }

    /// A scorer for a query whose terms have the idf weights `idfs`, with no
    /// match fed yet.
    pub fn new(idfs: Vec<u32>) -> (r: TfIdfScorer)
        requires
            idfs@.len() <= COORD_ONE,
        ensures
            r.wf(),
            r.idfs() == idfs@,
            r.matches().len() == 0,
    {
        let coords = coordination_table(idfs.len());
        TfIdfScorer { coords, idfs, matches: Vec::new() }
    }

    /// An independent scorer with the same weights and no match fed, for
    /// the scan of one segment.
    pub fn for_segment(&self) -> (r: TfIdfScorer)
        requires
            self.wf(),
        ensures
            r.wf(),
            r.idfs() == self.idfs(),
            r.matches().len() == 0,
    {
        TfIdfScorer { coords: self.coords.clone(), idfs: self.idfs.clone(), matches: Vec::new() }
    }

    /// Number of terms of the query.
    pub fn num_terms(&self) -> (r: usize)
        ensures
            r == self.idfs().len(),
    {
        self.idfs.len()
    }

    /// Forgets the matches fed so far, to start on a new document.
    pub fn clear(&mut self)
        requires
            old(self).wf(),
        ensures
            final(self).wf(),
            final(self).idfs() == old(self).idfs(),
            final(self).matches().len() == 0,
    {
        self.matches = Vec::new();
    }

    /// Feeds one term found at the document at hand.
    pub fn update(&mut self, m: TermMatch)
        requires
            old(self).wf(),
            m.ord < old(self).idfs().len(),
            old(self).matches().len() < old(self).idfs().len(),
        ensures
            final(self).wf(),
            final(self).idfs() == old(self).idfs(),
            final(self).matches() == old(self).matches().push(m),
    {
        self.matches.push(m);
    }

    fn weighted_sum(&self) -> (r: u128)
        requires
            self.wf(),
        ensures
            r == weight_sum(self.idfs(), self.matches()),
            r <= self.matches().len() * max_contribution(),
    {
        let n = self.matches.len();
        let mut sum: u128 = 0;
        let mut i: usize = 0;
        while i < n
            invariant
                self.wf(),
                n == self.matches@.len(),
                i <= n,
                sum == weight_sum(self.idfs@, self.matches@.subrange(0, i as int)),
                sum <= i * max_contribution(),
            decreases n - i,
        {
            let m = self.matches[i];
            let w = term_weight(m.tf, m.fieldnorm);
            proof {
                assert(m.ord < self.idfs@.len());
                lemma_contribution_bound(self.idfs@, m);
                assert(self.matches@.subrange(0, i + 1).drop_last() =~= self.matches@.subrange(
                    0,
                    i as int,
                ));
                assert(self.matches@.subrange(0, i + 1).last() == m);
                assert((self.idfs@[m.ord as int] as int) * (w as int) <= max_contribution())
                    by (nonlinear_arith)
                    requires
                        self.idfs@[m.ord as int] <= 0xffff_ffff,
                        0 <= w <= m.tf as int * 0x1_0000_0000,
                        m.tf <= 0xffff_ffff,
                ;
            }
            let c = self.idfs[m.ord] as u128 * w as u128;
            proof {
                let mc = max_contribution();
                assert(i + 1 <= 0x1_0000);
                assert(sum + c <= (i + 1) * mc) by (nonlinear_arith)
                    requires
                        sum <= i * mc,
                        c <= mc,
                ;
                assert((i + 1) * mc <= 0x1_0000 * mc) by (nonlinear_arith)
                    requires
                        i + 1 <= 0x1_0000,
                        mc >= 0,
                ;
            }
            sum = sum + c;
            i = i + 1;
        }
        assert(self.matches@.subrange(0, n as int) =~= self.matches@);
        sum
    }

    /// Score of the document at hand: the coordination factor for the number
    /// of matches fed, times the sum of their contributions.
    pub fn score(&self) -> (r: u128)
        requires
            self.wf(),
        ensures
            r == score_of(self.idfs(), self.matches()),
    {
        let sum = self.weighted_sum();
        let k = self.matches.len();
        let coord = self.coords[k];
        proof {
            lemma_coord_bound(k as int, self.idfs@.len() as int);
            assert(coord as int * sum as int <= 0x1_0000 * (0x1_0000 * max_contribution()))
                by (nonlinear_arith)
                requires
                    coord <= 0x1_0000,
                    sum <= k * max_contribution(),
                    k <= 0x1_0000,
                    sum >= 0,
            ;
        }
        coord as u128 * sum
    }

    /// The breakdown of the score of the document at hand, term by term.
    pub fn explain_score(&self) -> (r: Explanation)
        requires
            self.wf(),
        ensures
            explains(r, self.idfs(), self.matches()),
    {
        let n = self.matches.len();
        let mut terms: Vec<TermExplanation> = Vec::new();
        let mut i: usize = 0;
        while i < n
            invariant
                self.wf(),
                n == self.matches@.len(),
                i <= n,
                terms@.len() == i,
                forall|j: int|
                    0 <= j < i ==> {
                        let t = #[trigger] terms@[j];
                        let m = self.matches@[j];
                        &&& t.ord == m.ord
                        &&& t.tf == m.tf
                        &&& t.fieldnorm == m.fieldnorm
                        &&& t.idf == self.idfs@[m.ord as int]
                        &&& t.weight == contribution(self.idfs@, m)
                    },
            decreases n - i,
        {
            let m = self.matches[i];
            let w = term_weight(m.tf, m.fieldnorm);
            proof {
                assert(m.ord < self.idfs@.len());
                assert((self.idfs@[m.ord as int] as int) * (w as int) <= max_contribution())
                    by (nonlinear_arith)
                    requires
                        self.idfs@[m.ord as int] <= 0xffff_ffff,
                        0 <= w <= m.tf as int * 0x1_0000_0000,
                        m.tf <= 0xffff_ffff,
                ;
            }
            let idf = self.idfs[m.ord];
            terms.push(
                TermExplanation {
                    ord: m.ord,
                    idf,
                    tf: m.tf,
                    fieldnorm: m.fieldnorm,
                    weight: idf as u128 * w as u128,
                },
            );
            i = i + 1;
        }
        let coord = self.coords[n];
        let total = self.score();
        Explanation { coord, terms, total }
    }
}

} // verus!
