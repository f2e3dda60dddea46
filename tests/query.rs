use multiterm::postings::{is_ascending, Posting, SegmentPostings, SkipResult};
use multiterm::query::{collect_all, MultiTermQuery, QueryError, Term, TermPostings};
use multiterm::scorer::{
    coordination_table, idf_weight, term_weight, TermMatch, TfIdfScorer, COORD_ONE, IDF_ONE,
    TF_UNIT,
};
use multiterm::timer::TimerTree;
use multiterm::union::UnionPostings;

fn term(field: u32, text: &str) -> Term {
    Term { field, value: text.as_bytes().to_vec() }
}

fn postings(entries: &[(u32, u32)]) -> Vec<Posting> {
    entries.iter().map(|&(doc, tf)| Posting { doc, tf }).collect()
}

fn resolved(entries: &[(u32, u32)], norms: &[u32]) -> Option<TermPostings> {
    Some(TermPostings { postings: postings(entries), fieldnorms: norms.to_vec() })
}

fn cat_dog() -> (MultiTermQuery, TfIdfScorer, Vec<Option<TermPostings>>) {
    cat_dog_with_norm(4)
}

fn cat_dog_with_norm(norm: u32) -> (MultiTermQuery, TfIdfScorer, Vec<Option<TermPostings>>) {
    let query = MultiTermQuery::new(vec![term(0, "cat"), term(0, "dog")]);
    let scorer = query.scorer(&vec![2, 2], &vec![410, 410]);
    let norms = [norm; 8];
    let segment = vec![resolved(&[(1, 1), (2, 2)], &norms), resolved(&[(2, 1), (5, 1)], &norms)];
    (query, scorer, segment)
}

fn union_of(lists: Vec<Vec<Posting>>, n_terms: usize) -> UnionPostings {
    let n = lists.len();
    let scorer = TfIdfScorer::new(vec![IDF_ONE; n_terms]);
    let cursors: Vec<SegmentPostings> = lists.into_iter().map(SegmentPostings::new).collect();
    UnionPostings::new(cursors, (0..n).collect(), vec![Vec::new(); n], scorer)
}

#[test]
fn cat_dog_emits_each_document_once_in_order() {
    let (query, scorer, segment) = cat_dog();
    let docs = query.search_segment_docs(segment, &scorer);
    let ids: Vec<u32> = docs.iter().map(|d| d.doc).collect();
    assert_eq!(ids, vec![1, 2, 5]);
    assert!(docs[1].score > docs[0].score);
    assert!(docs[1].score > docs[2].score);
}

#[test]
fn long_documents_still_rank_by_matches() {
    for norm in [5000u32, 70000, u32::MAX] {
        let (query, scorer, segment) = cat_dog_with_norm(norm);
        let docs = query.search_segment_docs(segment, &scorer);
        let ids: Vec<u32> = docs.iter().map(|d| d.doc).collect();
        assert_eq!(ids, vec![1, 2, 5]);
        assert!(docs[0].score > 0);
        assert!(docs[2].score > 0);
        assert!(docs[1].score > docs[0].score);
        assert!(docs[1].score > docs[2].score);
    }
}

#[test]
fn cat_dog_scores_are_exact() {
    let (query, scorer, segment) = cat_dog();
    let docs = query.search_segment_docs(segment, &scorer);
    let idf = (IDF_ONE + 410) as u128;
    let w1 = (TF_UNIT / 5) as u128;
    let w2 = (2 * TF_UNIT / 5) as u128;
    let half = (COORD_ONE / 2) as u128;
    assert_eq!(docs[0].score, half * idf * w1);
    assert_eq!(docs[1].score, COORD_ONE as u128 * (idf * w2 + idf * w1));
    assert_eq!(docs[2].score, half * idf * w1);
}

#[test]
fn explain_of_unmatched_document_is_no_such_match() {
    let (query, scorer, segment) = cat_dog();
    assert_eq!(query.explain_segment(segment, &scorer, 3), Err(QueryError::NoSuchMatch));
    let (query, scorer, segment) = cat_dog();
    assert_eq!(query.explain_segment(segment, &scorer, 9), Err(QueryError::NoSuchMatch));
}

#[test]
fn explain_of_matched_document_breaks_down_its_score() {
    let (query, scorer, segment) = cat_dog();
    let docs = query.search_segment_docs(segment.clone(), &scorer);
    let e = query.explain_segment(segment, &scorer, 2).unwrap();
    assert_eq!(e.total, docs[1].score);
    assert_eq!(e.coord, COORD_ONE);
    assert_eq!(e.terms.len(), 2);
    assert_eq!((e.terms[0].ord, e.terms[0].tf, e.terms[0].fieldnorm), (0, 2, 4));
    assert_eq!((e.terms[1].ord, e.terms[1].tf, e.terms[1].fieldnorm), (1, 1, 4));
    let sum: u128 = e.terms.iter().map(|t| t.weight).sum();
    assert_eq!(e.coord as u128 * sum, e.total);
}

#[test]
fn empty_query_matches_nothing() {
    let query = MultiTermQuery::new(Vec::new());
    assert_eq!(query.num_terms(), 0);
    let scorer = query.scorer(&Vec::new(), &Vec::new());
    assert!(query.search_segment_docs(Vec::new(), &scorer).is_empty());
    let mut union = query.search_segment(Vec::new(), &scorer);
    assert!(!union.advance());
}

#[test]
fn terms_absent_from_segment_are_left_out() {
    let query = MultiTermQuery::new(vec![term(0, "a"), term(0, "b"), term(1, "c")]);
    let scorer = query.scorer(&vec![1, 0, 1], &vec![0, 0, 0]);
    let segment = vec![resolved(&[(3, 1)], &[]), None, resolved(&[(1, 1), (3, 2)], &[])];
    let docs = query.search_segment_docs(segment.clone(), &scorer);
    let ids: Vec<u32> = docs.iter().map(|d| d.doc).collect();
    assert_eq!(ids, vec![1, 3]);
    let e = query.explain_segment(segment, &scorer, 3).unwrap();
    let ords: Vec<usize> = e.terms.iter().map(|t| t.ord).collect();
    assert_eq!(ords, vec![0, 2]);
}

#[test]
fn union_is_sorted_union_of_lists() {
    let mut union = union_of(
        vec![
            postings(&[(0, 1), (4, 1), (9, 1)]),
            postings(&[(2, 1), (4, 1), (7, 1)]),
            postings(&[(4, 1), (5, 1), (9, 1), (12, 1)]),
        ],
        3,
    );
    let docs = collect_all(&mut union);
    let ids: Vec<u32> = docs.iter().map(|d| d.doc).collect();
    assert_eq!(ids, vec![0, 2, 4, 5, 7, 9, 12]);
}

#[test]
fn score_does_not_depend_on_term_order() {
    let scorer = TfIdfScorer::new(vec![1500, 1200, 1100]);
    let a = TermMatch { ord: 0, tf: 3, fieldnorm: 2 };
    let c = TermMatch { ord: 2, tf: 1, fieldnorm: 7 };
    let mut first = scorer.for_segment();
    first.update(a);
    first.update(c);
    let mut second = scorer.for_segment();
    second.update(c);
    second.update(a);
    let expected = (2 * COORD_ONE / 3) as u128
        * (1500 * term_weight(3, 2) as u128 + 1100 * term_weight(1, 7) as u128);
    assert_eq!(first.score(), expected);
    assert_eq!(second.score(), expected);
}

#[test]
fn union_score_does_not_depend_on_cursor_order() {
    let a = postings(&[(1, 2), (6, 1)]);
    let c = postings(&[(6, 3)]);
    let idfs = vec![1500, 1200, 1100];
    let make = |lists: Vec<Vec<Posting>>, ords: Vec<usize>| {
        let cursors: Vec<SegmentPostings> = lists.into_iter().map(SegmentPostings::new).collect();
        UnionPostings::new(cursors, ords, vec![Vec::new(), Vec::new()], TfIdfScorer::new(idfs.clone()))
    };
    let mut ac = make(vec![a.clone(), c.clone()], vec![0, 2]);
    let mut ca = make(vec![c, a], vec![2, 0]);
    assert_eq!(ac.skip_next(6), SkipResult::Reached);
    assert_eq!(ca.skip_next(6), SkipResult::Reached);
    assert_eq!(ac.score(), ca.score());
    assert_eq!(
        ac.score(),
        (2 * COORD_ONE / 3) as u128 * (1500 * TF_UNIT as u128 + 1100 * 3 * TF_UNIT as u128)
    );
}

#[test]
fn skip_never_comes_back() {
    let mut union = union_of(vec![postings(&[(1, 1), (2, 2)]), postings(&[(2, 1), (5, 1)])], 2);
    assert_eq!(union.skip_next(2), SkipResult::Reached);
    assert_eq!(union.doc(), 2);
    assert_eq!(union.skip_next(3), SkipResult::OverShot);
    assert_eq!(union.doc(), 5);
    assert_eq!(union.skip_next(4), SkipResult::End);
}

#[test]
fn skip_past_current_moves_on() {
    let mut union = union_of(vec![postings(&[(1, 1), (4, 1), (8, 1)])], 1);
    assert_eq!(union.skip_next(4), SkipResult::Reached);
    assert_eq!(union.skip_next(2), SkipResult::OverShot);
    assert_eq!(union.doc(), 8);
}

#[test]
fn exhausted_union_stays_exhausted() {
    let mut union = union_of(vec![postings(&[(3, 1)])], 1);
    assert!(union.advance());
    assert_eq!(union.doc(), 3);
    for _ in 0..5 {
        assert!(!union.advance());
    }
    assert_eq!(union.skip_next(0), SkipResult::End);
    assert!(!union.advance());
}

#[test]
fn zero_document_frequency_gives_neutral_idf() {
    assert_eq!(idf_weight(0, 700), IDF_ONE);
    assert_eq!(idf_weight(0, 0), IDF_ONE);
    assert_eq!(idf_weight(4, 700), IDF_ONE + 700);
}

#[test]
fn zero_document_frequency_term_scores_finitely() {
    let query = MultiTermQuery::new(vec![term(0, "ghost")]);
    let scorer = query.scorer(&vec![0], &vec![0]);
    let docs = query.search_segment_docs(vec![resolved(&[(0, 1)], &[])], &scorer);
    assert_eq!(docs[0].score, COORD_ONE as u128 * IDF_ONE as u128 * TF_UNIT as u128);
}

#[test]
fn term_weight_formula() {
    assert_eq!(term_weight(3, 1), 3 * TF_UNIT / 2);
    assert_eq!(term_weight(1, u32::MAX), 1);
    assert_eq!(term_weight(2, 4999), 2 * TF_UNIT / 5000);
    assert_eq!(term_weight(0, 5), 0);
    assert_eq!(term_weight(1, 0), TF_UNIT);
    assert!(term_weight(4, 2) >= term_weight(3, 2));
    assert!(term_weight(4, 9) <= term_weight(4, 2));
}

#[test]
fn coordination_table_values() {
    assert_eq!(coordination_table(3), vec![0, 21845, 43690, 65536]);
    assert_eq!(coordination_table(0), vec![0]);
}

#[test]
fn coordination_rises_with_every_match_at_the_largest_query() {
    let n = COORD_ONE as usize;
    let table = coordination_table(n);
    assert_eq!(table.len(), n + 1);
    assert_eq!(table[0], 0);
    assert_eq!(table[1], 1);
    assert_eq!(table[n], COORD_ONE);
    assert!(table.windows(2).all(|w| w[0] < w[1]));
    let table = coordination_table(70);
    assert!(table.windows(2).all(|w| w[0] < w[1]));
}

#[test]
fn ascending_check() {
    assert!(is_ascending(&postings(&[(1, 1), (3, 1), (7, 2)])));
    assert!(is_ascending(&Vec::new()));
    assert!(!is_ascending(&postings(&[(1, 1), (1, 2)])));
    assert!(!is_ascending(&postings(&[(4, 1), (2, 1)])));
}

#[test]
fn segment_postings_cursor() {
    let mut p = SegmentPostings::new(postings(&[(2, 5), (6, 1), (9, 3)]));
    assert!(!p.is_active());
    assert_eq!(p.skip_next(6), SkipResult::Reached);
    assert_eq!(p.term_freq(), 1);
    assert_eq!(p.skip_next(7), SkipResult::OverShot);
    assert_eq!(p.doc(), 9);
    assert!(!p.advance());
    assert!(!p.advance());
    assert_eq!(p.skip_next(10), SkipResult::End);
}

#[test]
fn query_keeps_terms_in_order() {
    let query = MultiTermQuery::new(vec![term(1, "x"), term(0, "y")]);
    assert_eq!(query.num_terms(), 2);
    assert_eq!(query.term_list()[0], term(1, "x"));
    assert_eq!(query.term_list()[1], term(0, "y"));
}

#[test]
fn timer_tree_records_nested_spans() {
    let mut tree = TimerTree::new();
    assert_eq!(tree.depth(), 0);
    tree.open("search".to_string());
    tree.open("segment_search".to_string());
    assert_eq!(tree.depth(), 2);
    tree.close(7);
    tree.open("collection".to_string());
    tree.close(3);
    tree.close(12);
    assert_eq!(tree.depth(), 0);
    tree.close(99);
    let spans: Vec<(String, usize, u64)> = tree
        .timings_list()
        .iter()
        .map(|t| (t.name.clone(), t.depth, t.duration_micros))
        .collect();
    assert_eq!(
        spans,
        vec![
            ("search".to_string(), 0, 12),
            ("segment_search".to_string(), 1, 7),
            ("collection".to_string(), 1, 3),
        ]
    );
}

#[test]
fn empty_timer_tree_is_valid() {
    let tree = TimerTree::new();
    assert!(tree.timings_list().is_empty());
    assert_eq!(tree.depth(), 0);
}

#[test]
fn reversed_query_scores_documents_the_same() {
    let a = resolved(&[(1, 2), (4, 1)], &[3, 3, 3, 3, 3]);
    let b = resolved(&[(2, 1)], &[3, 3, 3, 3, 3]);
    let c = resolved(&[(4, 3)], &[3, 3, 3, 3, 3]);
    let forward = MultiTermQuery::new(vec![term(0, "a"), term(0, "b"), term(0, "c")]);
    let backward = MultiTermQuery::new(vec![term(0, "c"), term(0, "b"), term(0, "a")]);
    let s1 = forward.scorer(&vec![5, 2, 1], &vec![300, 800, 1500]);
    let s2 = backward.scorer(&vec![1, 2, 5], &vec![1500, 800, 300]);
    let d1 = forward.search_segment_docs(vec![a.clone(), b.clone(), c.clone()], &s1);
    let d2 = backward.search_segment_docs(vec![c, b, a], &s2);
    assert_eq!(d1, d2);
    let idf_a = (IDF_ONE + 300) as u128;
    let idf_c = (IDF_ONE + 1500) as u128;
    let expected = (2 * COORD_ONE / 3) as u128
        * (idf_a * term_weight(1, 3) as u128 + idf_c * term_weight(3, 3) as u128);
    assert_eq!(d1[2].doc, 4);
    assert_eq!(d1[2].score, expected);
}
