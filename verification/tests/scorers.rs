use std::sync::Arc;

use json_array_search::docset::TERMINATED;
use json_array_search::json_metadata::JsonArrayPath;
use json_array_search::json_path_writer::JsonArrayPathEntry;
use json_array_search::query::json_utils::JsonPathScorer;
use json_array_search::query::leaf_scorers::{
    FreqReadingOption, OtherScorer, PhraseScorer, TermScorer,
};
use json_array_search::query::postings::{PostingList, SegmentPostings};
use json_array_search::query::score::ScorePlan;
use json_array_search::query::{ScoreCombiner, Scorer};

fn list(docs: &[u32]) -> Arc<PostingList> {
    let none = vec![None; docs.len()];
    match PostingList::new(docs.to_vec(), vec![None; docs.len()], none) {
        Some(list) => Arc::new(list),
        None => panic!("documents out of order"),
    }
}

fn term(handle: u32, docs: &[u32]) -> Scorer {
    Scorer::Term(TermScorer::new(handle, list(docs), None, FreqReadingOption::ReadFreq))
}

fn other(handle: u32, docs: &[u32]) -> Scorer {
    Scorer::Other(OtherScorer::new(handle, list(docs)))
}

fn path(entries: &[(u32, u32)]) -> JsonArrayPath {
    let entries: Vec<JsonArrayPathEntry> = entries
        .iter()
        .map(|(path_id, element_ord)| JsonArrayPathEntry {
            path_id: *path_id,
            element_ord: *element_ord,
        })
        .collect();
    Arc::from(entries)
}

/// A term with the elements of an array, for each document, or nothing known of them.
fn json_list(docs: &[(u32, Option<&[u32]>)]) -> Arc<PostingList> {
    let ids = docs.iter().map(|(doc, _)| *doc).collect();
    let paths = docs
        .iter()
        .map(|(_, elements)| {
            elements.map(|elements| elements.iter().map(|ord| path(&[(1, *ord)])).collect())
        })
        .collect();
    let indexes = docs
        .iter()
        .map(|(_, elements)| {
            elements.map(|elements| elements.iter().map(|ord| ord + 1).collect())
        })
        .collect();
    match PostingList::new(ids, paths, indexes) {
        Some(list) => Arc::new(list),
        None => panic!("documents out of order"),
    }
}

fn json_term(docs: &[(u32, Option<&[u32]>)]) -> Scorer {
    Scorer::Term(TermScorer::new(0, json_list(docs), Some(1), FreqReadingOption::ReadFreq))
}

fn walk(mut scorer: Scorer) -> Vec<u32> {
    let mut docs = Vec::new();
    let mut doc = scorer.doc();
    while doc != TERMINATED {
        docs.push(doc);
        doc = scorer.advance();
        assert_eq!(scorer.doc(), doc);
    }
    assert_eq!(scorer.advance(), TERMINATED);
    assert_eq!(scorer.seek(0), TERMINATED);
    docs
}

#[test]
fn postings_come_in_order() {
    let make = |docs: &[u32], paths: usize, indexes: usize| {
        PostingList::new(docs.to_vec(), vec![None; paths], vec![None; indexes]).is_some()
    };
    assert!(make(&[], 0, 0));
    assert!(make(&[0, 1, 5, TERMINATED - 1], 4, 4));
    assert!(!make(&[1, 1], 2, 2));
    assert!(!make(&[2, 1], 2, 2));
    assert!(!make(&[TERMINATED], 1, 1));
    assert!(!make(&[1, 2], 1, 2));
    assert!(!make(&[1, 2], 2, 1));
    assert!(!make(&[1, 2], 2, 3));
}

#[test]
fn postings_move_forwards_only() {
    let mut postings = SegmentPostings::new(list(&[3, 7, 9, 20]));
    assert_eq!(postings.size_hint(), 4);
    assert_eq!(postings.doc(), 3);
    assert_eq!(postings.seek(0), 3);
    assert_eq!(postings.seek(7), 7);
    assert_eq!(postings.seek(8), 9);
    assert_eq!(postings.seek(1), 9);
    let copy = postings.clone();
    assert_eq!(postings.advance(), 20);
    assert_eq!(postings.advance(), TERMINATED);
    assert_eq!(postings.advance(), TERMINATED);
    assert_eq!(copy.doc(), 9);
    assert_eq!(postings.size_hint(), 4);
}

#[test]
fn postings_know_the_paths_of_their_document() {
    let mut postings = SegmentPostings::new(json_list(&[
        (2, Some(&[0, 3])),
        (4, None),
        (5, Some(&[])),
    ]));
    assert_eq!(postings.json_array_paths().map(|paths| paths.len()), Some(2));
    assert_eq!(*postings.json_array_paths().unwrap()[1], *path(&[(1, 3)]));
    assert_eq!(postings.json_array_path_indexes(), Some(&[1, 4][..]));
    postings.advance();
    assert!(postings.json_array_paths().is_none());
    assert!(postings.json_array_path_indexes().is_none());
    postings.advance();
    assert_eq!(postings.json_array_paths().map(|paths| paths.len()), Some(0));
    assert_eq!(postings.json_array_path_indexes(), Some(&[][..]));
    postings.advance();
    assert!(postings.json_array_paths().is_none());
    assert!(postings.json_array_path_indexes().is_none());
}

#[test]
fn leaves_tell_what_they_were_made_with() {
    let scorer = TermScorer::new(7, list(&[1]), Some(9), FreqReadingOption::SkipFreq);
    assert_eq!(scorer.handle(), 7);
    assert_eq!(scorer.json_constraint_key(), Some(9));
    assert_eq!(scorer.freq_reading_option(), FreqReadingOption::SkipFreq);
    let scorer = PhraseScorer::new(8, list(&[1]), None);
    assert_eq!(scorer.handle(), 8);
    assert_eq!(scorer.json_constraint_key(), None);
    assert_eq!(OtherScorer::new(5, list(&[])).clone().handle(), 5);
}

#[test]
fn terms_and_phrases_expose_their_paths() {
    let docs: &[(u32, Option<&[u32]>)] = &[(1, Some(&[2])), (6, None)];
    let mut term = TermScorer::new(0, json_list(docs), None, FreqReadingOption::ReadFreq);
    assert_eq!(*term.json_array_paths_dyn().unwrap()[0], *path(&[(1, 2)]));
    assert_eq!(term.json_array_path_indexes_dyn(), Some(&[3][..]));
    let mut phrase = PhraseScorer::new(0, json_list(docs), None);
    assert_eq!(*phrase.json_array_paths_dyn().unwrap()[0], *path(&[(1, 2)]));
    assert_eq!(phrase.json_array_path_indexes_dyn(), Some(&[3][..]));
    let mut scorer = Scorer::Term(term);
    assert!(scorer.json_array_paths_dyn().is_some());
    scorer.advance();
    assert!(scorer.json_array_paths_dyn().is_none());
    assert!(scorer.json_array_path_indexes_dyn().is_none());
    let mut union = Scorer::union(vec![json_term(docs)], ScoreCombiner::DoNothing, 10);
    assert!(union.json_array_paths_dyn().is_none());
    assert!(union.json_array_path_indexes_dyn().is_none());
}

#[test]
fn a_union_has_the_documents_of_any() {
    let union = || {
        Scorer::union(
            vec![term(0, &[1, 4, 8]), other(1, &[2, 4]), term(2, &[])],
            ScoreCombiner::Handle(3),
            100,
        )
    };
    assert_eq!(walk(union()), [1, 2, 4, 8]);
    assert_eq!(union().size_hint(), 5);
    assert_eq!(union().cost(), 5);
    let mut scorer = union();
    assert_eq!(scorer.seek(3), 4);
    assert_eq!(scorer.seek(4), 4);
    assert_eq!(scorer.advance(), 8);
    assert_eq!(scorer.seek(9), TERMINATED);
    assert!(walk(Scorer::union(Vec::new(), ScoreCombiner::DoNothing, 100)).is_empty());
    let small = Scorer::union(
        vec![term(0, &[1, 2]), term(1, &[0, 2])],
        ScoreCombiner::DoNothing,
        3,
    );
    assert_eq!(small.size_hint(), 3);
}

#[test]
fn a_disjunction_has_the_documents_of_enough() {
    let disjunction = |minimum: usize| {
        Scorer::disjunction(
            vec![term(0, &[1, 2, 3, 9]), term(1, &[2, 3, 5]), term(2, &[3, 5, 9])],
            ScoreCombiner::Handle(0),
            minimum,
        )
    };
    assert_eq!(walk(disjunction(1)), [1, 2, 3, 5, 9]);
    assert_eq!(walk(disjunction(2)), [2, 3, 5, 9]);
    assert_eq!(walk(disjunction(3)), [3]);
    assert!(walk(disjunction(4)).is_empty());
    assert_eq!(disjunction(2).size_hint(), 10);
    assert_eq!(disjunction(2).cost(), 10);
    let mut scorer = disjunction(2);
    assert_eq!(scorer.seek(4), 5);
    assert_eq!(scorer.seek(6), 9);
}

#[test]
fn an_intersection_has_the_documents_of_all() {
    let intersection = || {
        Scorer::intersection(
            vec![term(0, &[1, 3, 5, 7, 9]), other(1, &[0, 3, 4, 7, 8, 9]), term(2, &[3, 9])],
            100,
        )
    };
    assert_eq!(walk(intersection()), [3, 9]);
    assert_eq!(intersection().size_hint(), 2);
    assert_eq!(intersection().cost(), 5);
    let mut scorer = intersection();
    assert_eq!(scorer.seek(4), 9);
    assert_eq!(walk(Scorer::intersection(vec![term(0, &[4])], 100)), [4]);
    assert!(walk(Scorer::intersection(vec![term(0, &[4]), Scorer::empty()], 100)).is_empty());
}

#[test]
fn a_required_scorer_decides_alone() {
    let both = || {
        Scorer::required_optional(
            term(0, &[2, 4, 6]),
            term(1, &[1, 4, 5, 6]),
            ScoreCombiner::Handle(0),
        )
    };
    assert_eq!(walk(both()), [2, 4, 6]);
    assert_eq!(both().size_hint(), 3);
    assert_eq!(both().cost(), 3);
    let mut scorer = both();
    assert_eq!(scorer.seek(3), 4);
    assert_eq!(scorer.seek(7), TERMINATED);
}

#[test]
fn an_excluding_scorer_takes_documents_away() {
    let exclude = || Scorer::exclude(term(0, &[1, 2, 3, 4, 8]), term(1, &[1, 3, 4, 7]));
    assert_eq!(walk(exclude()), [2, 8]);
    assert_eq!(exclude().size_hint(), 5);
    assert_eq!(exclude().cost(), 5);
    let mut scorer = exclude();
    assert_eq!(scorer.seek(3), 8);
    assert!(walk(Scorer::exclude(term(0, &[5]), term(1, &[5]))).is_empty());
    assert_eq!(walk(Scorer::exclude(term(0, &[5]), Scorer::empty())), [5]);
}

#[test]
fn nothing_is_in_an_empty_scorer() {
    assert!(walk(Scorer::empty()).is_empty());
    assert_eq!(Scorer::empty().size_hint(), 0);
    assert_eq!(Scorer::empty().cost(), 0);
}

#[test]
fn constraints_ask_for_a_path_in_common() {
    let clauses = || {
        vec![
            json_term(&[
                (0, Some(&[0])),
                (1, Some(&[0, 2])),
                (2, None),
                (3, Some(&[])),
                (4, Some(&[5])),
            ]),
            json_term(&[
                (0, Some(&[1])),
                (1, Some(&[2, 3])),
                (2, Some(&[7])),
                (3, Some(&[7])),
                (4, Some(&[5, 5])),
            ]),
        ]
    };
    assert_eq!(walk(Scorer::json_paths(clauses(), 10)), [1, 2, 3, 4]);
    assert_eq!(walk(Scorer::json_path_indexes(clauses(), 10)), [1, 2, 3, 4]);
    assert_eq!(Scorer::json_paths(clauses(), 10).size_hint(), 5);
    assert_eq!(Scorer::json_paths(clauses(), 10).cost(), 5);
    assert_eq!(Scorer::json_path_indexes(clauses(), 10).size_hint(), 5);
    assert_eq!(Scorer::json_path_indexes(clauses(), 10).cost(), 5);
    let mut scorer = Scorer::json_paths(clauses(), 10);
    assert_eq!(scorer.seek(0), 1);
    assert_eq!(scorer.seek(3), 3);
}

#[test]
fn a_clause_without_paths_makes_no_difference_wherever_it_stands() {
    let first: &[(u32, Option<&[u32]>)] = &[(0, Some(&[0])), (1, Some(&[0, 4]))];
    let second: &[(u32, Option<&[u32]>)] = &[(0, Some(&[1])), (1, Some(&[4]))];
    let unknown: &[(u32, Option<&[u32]>)] = &[(0, None), (1, None)];
    let empty: &[(u32, Option<&[u32]>)] = &[(0, Some(&[])), (1, Some(&[]))];
    for without in [unknown, empty] {
        for order in [
            [first, second, without],
            [first, without, second],
            [without, first, second],
            [without, second, first],
        ] {
            let clauses = || order.iter().map(|docs| json_term(docs)).collect::<Vec<Scorer>>();
            assert_eq!(walk(Scorer::json_paths(clauses(), 2)), [1]);
            assert_eq!(walk(Scorer::json_path_indexes(clauses(), 2)), [1]);
        }
        let clauses = || vec![json_term(without), json_term(without)];
        assert_eq!(walk(Scorer::json_paths(clauses(), 2)), [0, 1]);
        assert_eq!(walk(Scorer::json_path_indexes(clauses(), 2)), [0, 1]);
    }
}

#[test]
fn documents_come_in_full_blocks_but_for_the_last() {
    for (num_docs, lens) in [
        (0u32, vec![0]),
        (1, vec![1]),
        (63, vec![63]),
        (64, vec![64, 0]),
        (65, vec![64, 1]),
        (128, vec![64, 64, 0]),
        (130, vec![64, 64, 2]),
    ] {
        let docs: Vec<u32> = (0..num_docs).map(|doc| 3 * doc + 1).collect();
        let blocks = term(0, &docs).into_blocks();
        let found: Vec<usize> = blocks.iter().map(|block| block.len()).collect();
        assert_eq!(found, lens);
        assert_eq!(blocks.concat(), docs);
    }
}

/// The score, where a leaf has the score of its handle, and a combiner its handle as a bonus.
fn value(plan: &ScorePlan) -> u32 {
    match plan {
        ScorePlan::Zero => 0,
        ScorePlan::Leaf(handle) => *handle,
        ScorePlan::Sum(parts) => parts.iter().map(value).sum(),
        ScorePlan::Combined(combiner, parts) => {
            let bonus = match combiner {
                ScoreCombiner::DoNothing => return 0,
                ScoreCombiner::Handle(handle) => *handle,
            };
            bonus + parts.iter().map(value).sum::<u32>()
        }
    }
}

fn values(mut scorer: Scorer) -> Vec<(u32, u32)> {
    let mut found = Vec::new();
    let mut doc = scorer.doc();
    while doc != TERMINATED {
        found.push((doc, value(&scorer.score())));
        doc = scorer.advance();
    }
    found
}

#[test]
fn scores_come_from_those_that_have_the_document() {
    assert_eq!(values(term(5, &[2, 3])), [(2, 5), (3, 5)]);
    assert_eq!(values(other(6, &[2])), [(2, 6)]);
    let phrase = Scorer::Phrase(PhraseScorer::new(8, list(&[4]), None));
    assert_eq!(values(phrase), [(4, 8)]);
    let parts = || vec![term(1, &[1, 2]), term(10, &[2, 3]), term(100, &[2, 3])];
    assert_eq!(
        values(Scorer::union(parts(), ScoreCombiner::Handle(1000), 9)),
        [(1, 1001), (2, 1111), (3, 1110)]
    );
    assert_eq!(
        values(Scorer::union(parts(), ScoreCombiner::DoNothing, 9)),
        [(1, 0), (2, 0), (3, 0)]
    );
    assert_eq!(
        values(Scorer::disjunction(parts(), ScoreCombiner::Handle(2000), 2)),
        [(2, 2111), (3, 2110)]
    );
    assert_eq!(values(Scorer::intersection(parts(), 9)), [(2, 111)]);
    assert_eq!(values(Scorer::json_paths(parts(), 9)), [(2, 111)]);
    assert_eq!(values(Scorer::json_path_indexes(parts(), 9)), [(2, 111)]);
    assert_eq!(
        values(Scorer::exclude(term(7, &[1, 2]), term(50, &[1]))),
        [(2, 7)]
    );
    assert_eq!(
        values(Scorer::required_optional(
            term(1, &[1, 2, 4, 5]),
            term(10, &[0, 2, 3, 5, 6]),
            ScoreCombiner::Handle(100),
        )),
        [(1, 101), (2, 111), (4, 101), (5, 111)]
    );
}

#[test]
fn an_optional_scorer_adds_after_a_seek_too() {
    let mut scorer = Scorer::required_optional(
        term(1, &[1, 2, 4, 7]),
        Scorer::union(vec![term(10, &[2, 7]), term(20, &[4, 7])], ScoreCombiner::Handle(0), 9),
        ScoreCombiner::Handle(0),
    );
    assert_eq!(scorer.seek(3), 4);
    assert_eq!(value(&scorer.score()), 21);
    assert_eq!(scorer.advance(), 7);
    assert_eq!(value(&scorer.score()), 31);
}
