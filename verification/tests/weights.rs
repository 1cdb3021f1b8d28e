use std::sync::Arc;

use json_array_search::docset::TERMINATED;
use json_array_search::json_metadata::JsonArrayPath;
use json_array_search::json_path_writer::JsonArrayPathEntry;
use json_array_search::query::boolean_query::boolean_weight::{BooleanWeight, SpecializedScorer};
use json_array_search::query::boolean_query::Occur;
use json_array_search::query::json_query::JsonQuery;
use json_array_search::query::leaf_scorers::FreqReadingOption;
use json_array_search::query::postings::PostingList;
use json_array_search::query::queries::{LeafQuery, Query};
use json_array_search::query::score::ScorePlan;
use json_array_search::query::weight::{
    Clause, EnableScoring, Explanation, ExplanationKind, SearchError, SegmentReader, Weight,
};
use json_array_search::query::{ScoreCombiner, Scorer};

fn list(docs: &[u32]) -> Arc<PostingList> {
    match PostingList::new(docs.to_vec(), vec![None; docs.len()], vec![None; docs.len()]) {
        Some(list) => Arc::new(list),
        None => panic!("documents out of order"),
    }
}

/// Documents, each with an element of an array.
fn element_list(docs: &[(u32, u32)]) -> Arc<PostingList> {
    let path = |element_ord: u32| -> JsonArrayPath {
        Arc::from(vec![JsonArrayPathEntry { path_id: 1, element_ord }])
    };
    let list = PostingList::new(
        docs.iter().map(|(doc, _)| *doc).collect(),
        docs.iter().map(|(_, element_ord)| Some(vec![path(*element_ord)])).collect(),
        docs.iter().map(|(_, element_ord)| Some(vec![*element_ord])).collect(),
    );
    match list {
        Some(list) => Arc::new(list),
        None => panic!("documents out of order"),
    }
}

fn term(handle: u32, docs: &[u32]) -> Clause {
    Clause::Term {
        handle,
        list: list(docs),
        json_constraint_key: None,
        freq_reading_option: FreqReadingOption::ReadFreq,
    }
}

fn json_term(handle: u32, key: u64, docs: &[(u32, u32)]) -> Clause {
    Clause::Term {
        handle,
        list: element_list(docs),
        json_constraint_key: Some(key),
        freq_reading_option: FreqReadingOption::ReadFreq,
    }
}

fn json_phrase(handle: u32, key: u64, docs: &[(u32, u32)]) -> Clause {
    Clause::Phrase { handle, list: element_list(docs), json_constraint_key: Some(key) }
}

fn segment(num_docs: u32, clauses: Vec<Clause>) -> SegmentReader {
    SegmentReader { num_docs, clauses }
}

fn leaf_query(clause: usize) -> Query {
    Query::Leaf(LeafQuery { clause, terms: Vec::new(), failure: None })
}

fn leaf(clause: usize) -> Weight {
    match leaf_query(clause).weight(EnableScoring::Enabled) {
        Ok(weight) => weight,
        Err(error) => panic!("{:?}", error),
    }
}

fn json(clauses: &[usize]) -> Weight {
    let query = JsonQuery::new(clauses.iter().map(|clause| leaf_query(*clause)).collect());
    match query.weight(EnableScoring::Enabled) {
        Ok(weight) => weight,
        Err(error) => panic!("{:?}", error),
    }
}

fn clauses(occurs: &[(Occur, usize)]) -> Vec<(Occur, Weight)> {
    occurs.iter().map(|(occur, clause)| (*occur, leaf(*clause))).collect()
}

fn boolean(occurs: &[(Occur, usize)], minimum: usize, scoring: bool) -> BooleanWeight {
    BooleanWeight::with_minimum_number_should_match(
        clauses(occurs),
        minimum,
        scoring,
        ScoreCombiner::Handle(0),
    )
}

fn walk(mut scorer: Scorer) -> Vec<u32> {
    let mut docs = Vec::new();
    let mut doc = scorer.doc();
    while doc != TERMINATED {
        docs.push(doc);
        doc = scorer.advance();
    }
    docs
}

/// The documents, which are the same however they are asked for.
fn docs_of(weight: BooleanWeight, reader: &SegmentReader) -> Vec<u32> {
    let of_scorer = match weight.scorer(reader) {
        Ok(scorer) => walk(scorer),
        Err(error) => panic!("{:?}", error),
    };
    if weight.weights.len() > 1 {
        match weight.for_each(reader) {
            Ok(scorer) => assert_eq!(walk(scorer), of_scorer),
            Err(error) => panic!("{:?}", error),
        }
        match weight.for_each_no_score(reader) {
            Ok(blocks) => assert_eq!(blocks.concat(), of_scorer),
            Err(error) => panic!("{:?}", error),
        }
    }
    of_scorer
}

fn four_terms() -> SegmentReader {
    segment(
        20,
        vec![
            term(1, &[0, 2, 4, 6, 8, 10]),
            term(10, &[0, 3, 6, 9]),
            term(100, &[0, 1, 2, 3]),
            term(1000, &[6, 7]),
        ],
    )
}

#[test]
fn clauses_that_must_match_do() {
    let reader = four_terms();
    assert_eq!(docs_of(boolean(&[(Occur::Must, 0), (Occur::Must, 1)], 0, true), &reader), [0, 6]);
    assert_eq!(
        docs_of(boolean(&[(Occur::Must, 0), (Occur::Must, 1), (Occur::Must, 2)], 0, false), &reader),
        [0]
    );
}

#[test]
fn clauses_that_may_match_count_by_the_minimum() {
    let reader = four_terms();
    let shoulds = [(Occur::Should, 0), (Occur::Should, 1), (Occur::Should, 2)];
    let any = [0, 1, 2, 3, 4, 6, 8, 9, 10];
    assert_eq!(docs_of(boolean(&shoulds, 0, true), &reader), any);
    assert_eq!(docs_of(boolean(&shoulds, 1, true), &reader), any);
    assert_eq!(docs_of(boolean(&shoulds, 2, true), &reader), [0, 2, 3, 6]);
    assert_eq!(docs_of(boolean(&shoulds, 3, true), &reader), [0]);
    assert!(docs_of(boolean(&shoulds, 4, true), &reader).is_empty());
    let mixed =
        [(Occur::Must, 0), (Occur::Should, 1), (Occur::Should, 2), (Occur::Should, 3)];
    for scoring in [true, false] {
        assert_eq!(docs_of(boolean(&mixed, 0, scoring), &reader), [0, 2, 4, 6, 8, 10]);
        assert_eq!(docs_of(boolean(&mixed, 1, scoring), &reader), [0, 2, 6]);
        assert_eq!(docs_of(boolean(&mixed, 2, scoring), &reader), [0, 6]);
        assert!(docs_of(boolean(&mixed, 3, scoring), &reader).is_empty());
        assert!(docs_of(boolean(&mixed, 4, scoring), &reader).is_empty());
    }
}

#[test]
fn without_a_clause_that_may_match_the_minimum_is_out_of_reach() {
    let reader = four_terms();
    let musts = [(Occur::Must, 0), (Occur::Must, 1)];
    assert!(docs_of(boolean(&musts, 1, true), &reader).is_empty());
    let weight = BooleanWeight::new(clauses(&musts), true, ScoreCombiner::Handle(0));
    assert_eq!(weight.minimum_number_should_match, 1);
    assert!(docs_of(weight, &reader).is_empty());
    let shoulds = [(Occur::Should, 1), (Occur::Should, 3)];
    let weight = BooleanWeight::new(clauses(&shoulds), true, ScoreCombiner::Handle(0));
    assert_eq!(docs_of(weight, &reader), [0, 3, 6, 7, 9]);
}

#[test]
fn clauses_that_must_not_match_do_not() {
    let reader = four_terms();
    let mixed = [(Occur::Must, 0), (Occur::MustNot, 1), (Occur::MustNot, 2)];
    assert_eq!(docs_of(boolean(&mixed, 0, true), &reader), [4, 8, 10]);
    let mixed = [(Occur::Should, 0), (Occur::Should, 1), (Occur::MustNot, 2)];
    assert_eq!(docs_of(boolean(&mixed, 1, true), &reader), [4, 6, 8, 9, 10]);
    let alone = [(Occur::MustNot, 0), (Occur::MustNot, 1)];
    assert!(docs_of(boolean(&alone, 0, true), &reader).is_empty());
}

#[test]
fn few_clauses_are_not_combined() {
    let reader = four_terms();
    assert!(docs_of(boolean(&[], 0, true), &reader).is_empty());
    assert_eq!(docs_of(boolean(&[(Occur::Must, 3)], 1, true), &reader), [6, 7]);
    assert_eq!(docs_of(boolean(&[(Occur::Should, 3)], 5, true), &reader), [6, 7]);
    assert!(docs_of(boolean(&[(Occur::MustNot, 3)], 0, true), &reader).is_empty());
}

#[test]
fn a_union_of_terms_is_left_for_pruning() {
    let skipped = Clause::Term {
        handle: 4,
        list: list(&[5]),
        json_constraint_key: None,
        freq_reading_option: FreqReadingOption::SkipFreq,
    };
    let reader =
        segment(20, vec![term(1, &[1, 2]), term(2, &[2, 3]), skipped, Clause::Missing]);
    let handles = |occurs: &[(Occur, usize)], minimum: usize| {
        match boolean(occurs, minimum, true).for_each_pruning(&reader) {
            Ok(SpecializedScorer::TermUnion(terms)) => {
                Some(terms.iter().map(|term| term.handle()).collect::<Vec<u32>>())
            }
            Ok(SpecializedScorer::Other(_)) => None,
            Err(error) => panic!("{:?}", error),
        }
    };
    assert_eq!(handles(&[(Occur::Should, 0), (Occur::Should, 1)], 0), Some(vec![1, 2]));
    assert_eq!(handles(&[(Occur::Should, 0), (Occur::Should, 1)], 1), Some(vec![1, 2]));
    assert_eq!(handles(&[(Occur::Should, 0), (Occur::Should, 1)], 2), None);
    assert_eq!(handles(&[(Occur::Should, 0), (Occur::Should, 2)], 1), None);
    assert_eq!(handles(&[(Occur::Should, 0), (Occur::Should, 3)], 1), None);
    assert_eq!(handles(&[(Occur::Should, 0)], 1), None);
    assert_eq!(handles(&[(Occur::Should, 0), (Occur::Should, 1), (Occur::Must, 0)], 1), None);
    assert_eq!(handles(&[(Occur::Should, 0), (Occur::Should, 1), (Occur::MustNot, 3)], 1), None);
}

#[test]
fn each_json_field_has_to_agree_on_its_own() {
    let docs: &[(u32, u32)] = &[(0, 1), (1, 1), (2, 1), (3, 1)];
    let reader = segment(
        4,
        vec![
            json_term(0, 11, docs),
            json_term(1, 11, &[(0, 1), (1, 2), (2, 1), (3, 2)]),
            json_phrase(2, 22, &[(0, 5), (1, 5), (2, 5), (3, 5)]),
            json_term(3, 22, &[(0, 5), (1, 5), (2, 6), (3, 6)]),
            json_term(4, 33, &[(0, 9), (1, 9), (2, 9), (3, 9)]),
            term(5, &[0, 1, 2, 3]),
        ],
    );
    let must = |clauses: &[usize]| {
        let occurs: Vec<(Occur, usize)> =
            clauses.iter().map(|clause| (Occur::Must, *clause)).collect();
        docs_of(boolean(&occurs, 0, true), &reader)
    };
    assert_eq!(must(&[0, 1]), [0, 2]);
    assert_eq!(must(&[2, 3]), [0, 1]);
    assert_eq!(must(&[0, 2]), [0, 1, 2, 3]);
    assert_eq!(must(&[0, 1, 2, 3]), [0]);
    assert_eq!(must(&[3, 1, 4, 2, 5, 0]), [0]);
    assert_eq!(must(&[4, 5]), [0, 1, 2, 3]);
    // Only clauses that have to match anyway are asked to agree.
    let shoulds = [(Occur::Should, 0), (Occur::Should, 1)];
    assert_eq!(docs_of(boolean(&shoulds, 2, true), &reader), [0, 1, 2, 3]);
}

#[test]
fn a_clause_outside_arrays_does_not_restrict_the_others_of_its_field() {
    let outside = Clause::Term {
        handle: 2,
        list: list(&[0, 1]),
        json_constraint_key: Some(7),
        freq_reading_option: FreqReadingOption::ReadFreq,
    };
    let reader = segment(
        2,
        vec![json_term(0, 7, &[(0, 1), (1, 1)]), json_term(1, 7, &[(0, 2), (1, 1)]), outside],
    );
    for order in [[0, 1, 2], [0, 2, 1], [2, 0, 1], [2, 1, 0]] {
        let occurs: Vec<(Occur, usize)> =
            order.iter().map(|clause| (Occur::Must, *clause)).collect();
        assert_eq!(docs_of(boolean(&occurs, 0, true), &reader), [1]);
    }
}

#[test]
fn where_all_that_may_match_have_to_they_are_like_those_that_have_to() {
    let reader = four_terms();
    for clauses in [vec![0, 1], vec![0, 1, 2], vec![0, 3], vec![2, 3]] {
        let of = |occur: Occur| -> Vec<(Occur, usize)> {
            clauses.iter().map(|clause| (occur, *clause)).collect()
        };
        assert_eq!(
            docs_of(boolean(&of(Occur::Should), clauses.len(), true), &reader),
            docs_of(boolean(&of(Occur::Must), 0, true), &reader)
        );
    }
}

#[test]
fn one_clause_is_visited_alike_with_scores_and_without() {
    let reader = four_terms();
    let visited = |occur: Occur, minimum: usize| {
        let weight = boolean(&[(occur, 3)], minimum, true);
        let with_scores = match weight.for_each(&reader) {
            Ok(scorer) => walk(scorer),
            Err(error) => panic!("{:?}", error),
        };
        match weight.for_each_no_score(&reader) {
            Ok(blocks) => assert_eq!(blocks.concat(), with_scores),
            Err(error) => panic!("{:?}", error),
        }
        with_scores
    };
    assert_eq!(visited(Occur::Must, 0), [6, 7]);
    assert!(visited(Occur::Must, 1).is_empty());
    assert_eq!(visited(Occur::Should, 1), [6, 7]);
    assert!(visited(Occur::MustNot, 0).is_empty());
}

#[test]
fn weights_can_be_nested() {
    let reader = four_terms();
    let inner = Weight::Boolean(boolean(&[(Occur::Should, 2), (Occur::Should, 3)], 1, true));
    let outer = BooleanWeight::with_minimum_number_should_match(
        vec![(Occur::Must, leaf(0)), (Occur::Must, inner), (Occur::MustNot, json(&[1, 2]))],
        0,
        true,
        ScoreCombiner::Handle(0),
    );
    assert_eq!(docs_of(outer, &reader), [2, 6]);
}

#[test]
fn a_json_query_takes_any_subquery() {
    // Neither a term nor a phrase: nothing is known of its paths.
    let reader = segment(
        9,
        vec![
            json_term(0, 1, &[(1, 4), (2, 4), (5, 4)]),
            json_term(1, 1, &[(1, 4), (2, 3), (5, 4)]),
            Clause::Other { handle: 2, list: list(&[2, 5]) },
            Clause::Missing,
        ],
    );
    let matching = |weight: Weight| match weight.scorer(&reader) {
        Ok(scorer) => walk(scorer),
        Err(error) => panic!("{:?}", error),
    };
    assert_eq!(matching(json(&[0, 1])), [1, 5]);
    assert_eq!(matching(json(&[0, 2])), [2, 5]);
    assert_eq!(matching(json(&[2, 0, 1])), [5]);
    assert_eq!(matching(json(&[2])), [2, 5]);
    assert!(matching(json(&[0, 3])).is_empty());
    assert!(matching(json(&[])).is_empty());
    let nested = JsonQuery::new(vec![
        Query::Json(JsonQuery::new(vec![leaf_query(0), leaf_query(1)])),
        leaf_query(2),
    ]);
    match nested.weight(EnableScoring::Disabled) {
        Ok(weight) => {
            assert_eq!(matching(weight), [5]);
        }
        Err(error) => panic!("{:?}", error),
    }
}

#[test]
fn the_first_failure_is_given() {
    let reader = segment(
        9,
        vec![
            term(0, &[1]),
            Clause::Failed(SearchError::Clause(41)),
            Clause::Failed(SearchError::Clause(42)),
        ],
    );
    let error_of = |scorer: Result<Scorer, SearchError>| match scorer {
        Ok(_) => panic!("there is a scorer"),
        Err(error) => error,
    };
    let expected = SearchError::Clause(41);
    assert_eq!(error_of(leaf(1).scorer(&reader)), expected);
    assert_eq!(error_of(json(&[0, 1, 2]).scorer(&reader)), expected);
    assert_eq!(error_of(json(&[2, 1]).scorer(&reader)), SearchError::Clause(42));
    let failing = [(Occur::Must, 0), (Occur::MustNot, 1), (Occur::Should, 2)];
    assert_eq!(error_of(boolean(&failing, 0, true).scorer(&reader)), expected);
    assert_eq!(error_of(boolean(&failing, 0, true).for_each(&reader)), expected);
    match boolean(&failing, 0, true).for_each_no_score(&reader) {
        Ok(_) => panic!("there are documents"),
        Err(error) => assert_eq!(error, expected),
    }
    match boolean(&failing, 0, true).for_each_pruning(&reader) {
        Ok(_) => panic!("there is a scorer"),
        Err(error) => assert_eq!(error, expected),
    }
    assert_eq!(error_of(boolean(&[(Occur::Must, 2)], 0, true).scorer(&reader)), SearchError::Clause(42));
    // A single clause that must not match is not looked up.
    match boolean(&[(Occur::MustNot, 1)], 0, true).scorer(&reader) {
        Ok(scorer) => assert!(walk(scorer).is_empty()),
        Err(error) => panic!("{:?}", error),
    }
}

#[test]
fn a_query_that_fails_has_no_weight() {
    let failing = |clause: usize, number: u32| {
        Query::Leaf(LeafQuery {
            clause,
            terms: Vec::new(),
            failure: Some(SearchError::Clause(number)),
        })
    };
    let query = JsonQuery::new(vec![leaf_query(0), failing(1, 7), failing(2, 8)]);
    match query.weight(EnableScoring::Enabled) {
        Ok(_) => panic!("there is a weight"),
        Err(error) => assert_eq!(error, SearchError::Clause(7)),
    }
    match Query::Json(JsonQuery::new(vec![Query::Json(query)])).weight(EnableScoring::Enabled) {
        Ok(_) => panic!("there is a weight"),
        Err(error) => assert_eq!(error, SearchError::Clause(7)),
    }
}

fn explained(explanation: Result<Explanation, SearchError>) -> Explanation {
    match explanation {
        Ok(explanation) => explanation,
        Err(error) => panic!("{:?}", error),
    }
}

fn refused(explanation: Result<Explanation, SearchError>) -> SearchError {
    match explanation {
        Ok(_) => panic!("there is an explanation"),
        Err(error) => error,
    }
}

/// The sum of the handles of the leaves in a score.
fn total(plan: &ScorePlan) -> u32 {
    match plan {
        ScorePlan::Zero => 0,
        ScorePlan::Leaf(handle) => *handle,
        ScorePlan::Sum(parts) => parts.iter().map(total).sum(),
        ScorePlan::Combined(_, parts) => parts.iter().map(total).sum(),
    }
}

fn score_of(explanation: &Explanation) -> Option<u32> {
    explanation.scorer.as_ref().map(|scorer| total(&scorer.score()))
}

#[test]
fn an_explanation_has_the_clauses_that_match() {
    let reader = four_terms();
    let occurs =
        [(Occur::Must, 0), (Occur::Should, 1), (Occur::MustNot, 3), (Occur::Should, 2)];
    let weight = boolean(&occurs, 0, true);
    let explanation = explained(weight.explain(&reader, 2));
    assert_eq!(explanation.kind, ExplanationKind::BooleanClause);
    assert_eq!(explanation.description(), "BooleanClause. sum of ...");
    assert_eq!(score_of(&explanation), Some(101));
    let scores: Vec<Option<u32>> = explanation.details.iter().map(score_of).collect();
    assert_eq!(scores, [Some(1), Some(100)]);
    assert_eq!(explanation.details[0].kind, ExplanationKind::Leaf);
    assert_eq!(explained(weight.explain(&reader, 0)).details.len(), 3);
    assert_eq!(refused(weight.explain(&reader, 6)), SearchError::DoesNotMatch(6));
    assert_eq!(refused(weight.explain(&reader, 1)), SearchError::DoesNotMatch(1));
    assert_eq!(refused(weight.explain(&reader, 500)), SearchError::DoesNotMatch(500));
}

#[test]
fn without_scores_an_explanation_is_short() {
    let reader = four_terms();
    let weight = boolean(&[(Occur::Must, 0), (Occur::Must, 1)], 0, false);
    let explanation = explained(Weight::Boolean(weight).explain(&reader, 6));
    assert_eq!(explanation.kind, ExplanationKind::BooleanWithoutScoring);
    assert_eq!(explanation.description(), "BooleanQuery with no scoring");
    assert!(explanation.scorer.is_none());
    assert!(explanation.details.is_empty());
}

#[test]
fn a_json_query_explains_its_clauses() {
    let reader = segment(
        9,
        vec![
            json_term(1, 1, &[(1, 4), (2, 4)]),
            json_term(10, 1, &[(1, 4), (2, 3)]),
            Clause::Failed(SearchError::Clause(3)),
        ],
    );
    let weight = json(&[0, 1]);
    let explanation = explained(weight.explain(&reader, 1));
    assert_eq!(explanation.kind, ExplanationKind::JsonQuery);
    assert_eq!(explanation.description(), "JsonQuery");
    assert_eq!(score_of(&explanation), Some(11));
    let scores: Vec<Option<u32>> = explanation.details.iter().map(score_of).collect();
    assert_eq!(scores, [Some(1), Some(10)]);
    assert_eq!(refused(weight.explain(&reader, 2)), SearchError::DoesNotMatch(2));
    assert_eq!(refused(json(&[0, 2]).explain(&reader, 1)), SearchError::Clause(3));
    assert_eq!(explained(leaf(0).explain(&reader, 2)).description(), "Clause");
    assert_eq!(refused(leaf(0).explain(&reader, 3)), SearchError::DoesNotMatch(3));
}

#[test]
fn a_clause_out_of_the_segment_has_no_documents() {
    let reader = segment(9, vec![term(0, &[1])]);
    match leaf(4).scorer(&reader) {
        Ok(scorer) => assert!(walk(scorer).is_empty()),
        Err(error) => panic!("{:?}", error),
    }
}

#[test]
fn many_documents_come_in_blocks() {
    let even: Vec<u32> = (0..200).map(|doc| 2 * doc).collect();
    let third: Vec<u32> = (0..200).map(|doc| 3 * doc).collect();
    let reader = segment(1000, vec![term(0, &even), term(1, &third)]);
    let weight = boolean(&[(Occur::Should, 0), (Occur::Should, 1)], 1, true);
    match weight.for_each_no_score(&reader) {
        Ok(blocks) => {
            let lens: Vec<usize> = blocks.iter().map(|block| block.len()).collect();
            assert_eq!(lens, [64, 64, 64, 64, 64, 13]);
            let docs = blocks.concat();
            assert!(docs.windows(2).all(|pair| pair[0] < pair[1]));
            assert_eq!(docs.len(), 333);
        }
        Err(error) => panic!("{:?}", error),
    }
}
