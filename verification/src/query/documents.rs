//! What a search finds, in terms of what its clauses find.
use vstd::prelude::*;

use crate::docset::DocId;
use crate::query::boolean_query::Occur;
use crate::query::json_query::JsonQuery;
use crate::query::queries;
use crate::query::queries::Query;
use crate::query::trees;
use crate::query::weight;
use crate::query::weight::{Clause, EnableScoring, SearchError, SegmentReader, Weight};
use crate::query::{Leaf, ScorerTree};

verus! {

/// What a scorer of a clause that is looked up as it is goes through: what the segment has
/// under the number of the clause, with all that belongs to it, and nothing where it has none.
pub proof fn lemma_clause_found(
    reader: SegmentReader,
    clause: usize,
    tree: ScorerTree,
    error: SearchError,
)
    ensures
        reader.outcome(clause) == Ok::<ScorerTree, SearchError>(tree) <==> if clause
            >= reader.clauses@.len() {
            tree == ScorerTree::Empty
        } else {
            match reader.clauses@[clause as int] {
                Clause::Missing => tree == ScorerTree::Empty,
                Clause::Term { handle, list, json_constraint_key, freq_reading_option } => {
                    &&& tree is Term
                    &&& tree->Term_leaf == Leaf { handle, postings: list@ }
                    &&& tree->Term_json_constraint_key == json_constraint_key
                    &&& tree->Term_freq_reading_option == freq_reading_option
                },
                Clause::Phrase { handle, list, json_constraint_key } => {
                    &&& tree is Phrase
                    &&& tree->Phrase_leaf == Leaf { handle, postings: list@ }
                    &&& tree->Phrase_json_constraint_key == json_constraint_key
                },
                Clause::Other { handle, list } => {
                    &&& tree is Other
                    &&& tree->Other_leaf == Leaf { handle, postings: list@ }
                },
                Clause::Failed(_) => false,
            }
        },
        reader.outcome(clause) == Err::<ScorerTree, SearchError>(error) <==> clause
            < reader.clauses@.len() && reader.clauses@[clause as int] == Clause::Failed(error),
{
}

/// True when each weight may make a scorer that goes through the tree in its place.
pub open spec fn each_builds(
    weights: Seq<Weight>,
    reader: SegmentReader,
    docsets: Seq<ScorerTree>,
) -> bool {
    &&& docsets.len() == weights.len()
    &&& forall|i: int|
        #![trigger weights[i]]
        #![trigger docsets[i]]
        0 <= i < weights.len() ==> weights[i].builds(reader, docsets[i])
}

/// Several weights make scorers one by one.
pub proof fn lemma_each_builds(
    weights: Seq<Weight>,
    reader: SegmentReader,
    docsets: Seq<ScorerTree>,
)
    ensures
        weight::all_build(weights, reader, docsets) <==> each_builds(weights, reader, docsets),
    decreases weights.len(),
{
    if weights.len() > 0 && docsets.len() == weights.len() {
        let fewer = weights.drop_last();
        let trees = docsets.drop_last();
        let last = weights.len() - 1;
        lemma_each_builds(fewer, reader, trees);
        if weight::all_build(weights, reader, docsets) {
            assert forall|i: int|
                #![trigger weights[i]]
                #![trigger docsets[i]]
                0 <= i < weights.len() implies weights[i].builds(reader, docsets[i]) by {
                if i < last {
                    assert(fewer[i].builds(reader, trees[i]));
                }
            }
        }
        if each_builds(weights, reader, docsets) {
            assert forall|i: int|
                #![trigger fewer[i]]
                #![trigger trees[i]]
                0 <= i < fewer.len() implies fewer[i].builds(reader, trees[i]) by {
                assert(weights[i].builds(reader, docsets[i]));
            }
            assert(weights[last].builds(reader, docsets[last]));
        }
    }
}

/// The weights of several clauses, in order.
pub open spec fn clause_weights(clauses: Seq<(Occur, Weight)>) -> Seq<Weight> {
    clauses.map_values(|clause: (Occur, Weight)| clause.1)
}

/// Several clauses make scorers one by one, whatever they have to do with a match.
pub proof fn lemma_each_clause_builds(
    clauses: Seq<(Occur, Weight)>,
    reader: SegmentReader,
    docsets: Seq<ScorerTree>,
)
    ensures
        weight::all_clauses_build(clauses, reader, docsets) <==> {
            &&& docsets.len() == clauses.len()
            &&& forall|i: int|
                #![trigger clauses[i]]
                #![trigger docsets[i]]
                0 <= i < clauses.len() ==> clauses[i].1.builds(reader, docsets[i])
        },
    decreases clauses.len(),
{
    if clauses.len() > 0 && docsets.len() == clauses.len() {
        let fewer = clauses.drop_last();
        let trees = docsets.drop_last();
        let last = clauses.len() - 1;
        lemma_each_clause_builds(fewer, reader, trees);
        if weight::all_clauses_build(clauses, reader, docsets) {
            assert forall|i: int|
                #![trigger clauses[i]]
                #![trigger docsets[i]]
                0 <= i < clauses.len() implies clauses[i].1.builds(reader, docsets[i]) by {
                if i < last {
                    assert(fewer[i].1.builds(reader, trees[i]));
                }
            }
        }
        if forall|i: int|
            #![trigger clauses[i]]
            #![trigger docsets[i]]
            0 <= i < clauses.len() ==> clauses[i].1.builds(reader, docsets[i]) {
            assert forall|i: int|
                #![trigger fewer[i]]
                #![trigger trees[i]]
                0 <= i < fewer.len() implies fewer[i].1.builds(reader, trees[i]) by {
                assert(clauses[i].1.builds(reader, docsets[i]));
            }
            assert(clauses[last].1.builds(reader, docsets[last]));
        }
    }
}

/// A weight fails with what the first of its clauses fails with, and only where one does. A
/// single clause that must not match is not looked up.
pub proof fn lemma_failure_of_first(weight: Weight, reader: SegmentReader, error: SearchError)
    ensures
        weight.failure(reader) == Some(error) <==> match weight {
            Weight::Leaf(leaf) => leaf.clause < reader.clauses@.len()
                && reader.clauses@[leaf.clause as int] == Clause::Failed(error),
            Weight::Json(json) => exists|i: int|
                #![trigger json.weights@[i]]
                0 <= i < json.weights@.len() && json.weights@[i].failure(reader) == Some(error)
                    && forall|j: int|
                    #![trigger json.weights@[j]]
                    0 <= j < i ==> json.weights@[j].failure(reader) is None,
            Weight::Boolean(boolean) => {
                &&& !(boolean.weights@.len() == 1 && boolean.weights@[0].0 == Occur::MustNot)
                &&& exists|i: int|
                    #![trigger boolean.weights@[i]]
                    0 <= i < boolean.weights@.len() && boolean.weights@[i].1.failure(reader)
                        == Some(error) && forall|j: int|
                        #![trigger boolean.weights@[j]]
                        0 <= j < i ==> boolean.weights@[j].1.failure(reader) is None
            },
        },
{
    match weight {
        Weight::Leaf(_) => {},
        Weight::Json(json) => {
            lemma_first_of_failures(json.weights@, reader, error);
        },
        Weight::Boolean(boolean) => {
            lemma_first_of_clause_failures(boolean.weights@, reader, error);
        },
    }
}

pub(crate) proof fn lemma_first_of_failures(weights: Seq<Weight>, reader: SegmentReader, error: SearchError)
    ensures
        weight::first_failure(weights, reader) == Some(error) <==> exists|i: int|
            #![trigger weights[i]]
            0 <= i < weights.len() && weights[i].failure(reader) == Some(error) && forall|j: int|
                #![trigger weights[j]]
                0 <= j < i ==> weights[j].failure(reader) is None,
        weight::first_failure(weights, reader) is None <==> forall|i: int|
            #![trigger weights[i]]
            0 <= i < weights.len() ==> weights[i].failure(reader) is None,
    decreases weights.len(),
{
    if weights.len() > 0 {
        let fewer = weights.drop_last();
        let last = weights.len() - 1;
        lemma_first_of_failures(fewer, reader, error);
        assert(weights[last] == weights.last());
        if weight::first_failure(fewer, reader) is None {
            assert forall|i: int|
                #![trigger weights[i]]
                0 <= i < last implies weights[i].failure(reader) is None by {
                assert(fewer[i].failure(reader) is None);
            }
        } else {
            let found = choose|i: int|
                #![trigger fewer[i]]
                0 <= i < fewer.len() && fewer[i].failure(reader) is Some;
            assert(weights[found].failure(reader) is Some);
            if weight::first_failure(fewer, reader) == Some(error) {
                let i = choose|i: int|
                    #![trigger fewer[i]]
                    0 <= i < fewer.len() && fewer[i].failure(reader) == Some(error)
                        && forall|j: int|
                        #![trigger fewer[j]]
                        0 <= j < i ==> fewer[j].failure(reader) is None;
                assert forall|j: int|
                    #![trigger weights[j]]
                    0 <= j < i implies weights[j].failure(reader) is None by {
                    assert(fewer[j].failure(reader) is None);
                }
                assert(weights[i].failure(reader) == Some(error));
            }
            if exists|i: int|
                #![trigger weights[i]]
                0 <= i < weights.len() && weights[i].failure(reader) == Some(error)
                    && forall|j: int|
                    #![trigger weights[j]]
                    0 <= j < i ==> weights[j].failure(reader) is None {
                let i = choose|i: int|
                    #![trigger weights[i]]
                    0 <= i < weights.len() && weights[i].failure(reader) == Some(error)
                        && forall|j: int|
                        #![trigger weights[j]]
                        0 <= j < i ==> weights[j].failure(reader) is None;
                assert(found >= i) by {
                    if found < i {
                        assert(weights[found].failure(reader) is None);
                    }
                }
                assert(fewer[i].failure(reader) == Some(error));
                assert forall|j: int|
                    #![trigger fewer[j]]
                    0 <= j < i implies fewer[j].failure(reader) is None by {
                    assert(weights[j].failure(reader) is None);
                }
            }
        }
    }
}

/// The failure of the clauses is that of their weights.
proof fn lemma_failure_of_weights(clauses: Seq<(Occur, Weight)>, reader: SegmentReader)
    ensures
        weight::first_clause_failure(clauses, reader) == weight::first_failure(
            clause_weights(clauses),
            reader,
        ),
    decreases clauses.len(),
{
    if clauses.len() > 0 {
        lemma_failure_of_weights(clauses.drop_last(), reader);
        assert(clause_weights(clauses).drop_last() =~= clause_weights(clauses.drop_last()));
    }
}

/// Clauses fail with what the first of them fails with that does.
pub proof fn lemma_first_of_clause_failures(
    clauses: Seq<(Occur, Weight)>,
    reader: SegmentReader,
    error: SearchError,
)
    ensures
        weight::first_clause_failure(clauses, reader) == Some(error) <==> exists|i: int|
            #![trigger clauses[i]]
            0 <= i < clauses.len() && clauses[i].1.failure(reader) == Some(error)
                && forall|j: int|
                #![trigger clauses[j]]
                0 <= j < i ==> clauses[j].1.failure(reader) is None,
        weight::first_clause_failure(clauses, reader) is None <==> forall|i: int|
            #![trigger clauses[i]]
            0 <= i < clauses.len() ==> clauses[i].1.failure(reader) is None,
{
    let weights = clause_weights(clauses);
    lemma_failure_of_weights(clauses, reader);
    lemma_first_of_failures(weights, reader, error);
    assert(forall|i: int| 0 <= i < clauses.len() ==> #[trigger] weights[i] == clauses[i].1);
    assert(forall|i: int| 0 <= i < clauses.len() ==> weights[i] == (#[trigger] clauses[i]).1);
    if weight::first_failure(weights, reader) == Some(error) {
        let i = choose|i: int|
            #![trigger weights[i]]
            0 <= i < weights.len() && weights[i].failure(reader) == Some(error) && forall|j: int|
                #![trigger weights[j]]
                0 <= j < i ==> weights[j].failure(reader) is None;
        assert(clauses[i].1.failure(reader) == Some(error));
        assert forall|j: int|
            #![trigger clauses[j]]
            0 <= j < i implies clauses[j].1.failure(reader) is None by {
            assert(weights[j].failure(reader) is None);
        }
    }
    if exists|i: int|
        #![trigger clauses[i]]
        0 <= i < clauses.len() && clauses[i].1.failure(reader) == Some(error) && forall|j: int|
            #![trigger clauses[j]]
            0 <= j < i ==> clauses[j].1.failure(reader) is None {
        let i = choose|i: int|
            #![trigger clauses[i]]
            0 <= i < clauses.len() && clauses[i].1.failure(reader) == Some(error)
                && forall|j: int|
                #![trigger clauses[j]]
                0 <= j < i ==> clauses[j].1.failure(reader) is None;
        assert(weights[i].failure(reader) == Some(error));
        assert forall|j: int|
            #![trigger weights[j]]
            0 <= j < i implies weights[j].failure(reader) is None by {
            assert(clauses[j].1.failure(reader) is None);
        }
    }
    if weight::first_failure(weights, reader) is None {
        assert forall|i: int|
            #![trigger clauses[i]]
            0 <= i < clauses.len() implies clauses[i].1.failure(reader) is None by {
            assert(weights[i].failure(reader) is None);
        }
    }
    if forall|i: int|
        #![trigger clauses[i]]
        0 <= i < clauses.len() ==> clauses[i].1.failure(reader) is None {
        assert forall|i: int|
            #![trigger weights[i]]
            0 <= i < weights.len() implies weights[i].failure(reader) is None by {
            assert(clauses[i].1.failure(reader) is None);
        }
    }
}

/// A weight of few clauses makes the scorer of its only one, or an empty one.
pub proof fn lemma_few_clauses(weight: Weight, reader: SegmentReader, tree: ScorerTree)
    ensures
        match weight {
            Weight::Leaf(leaf) => weight.builds(reader, tree) <==> reader.outcome(leaf.clause)
                == Ok::<ScorerTree, SearchError>(tree),
            Weight::Json(json) => {
                &&& json.weights@.len() == 0 ==> (weight.builds(reader, tree) <==> tree
                    == ScorerTree::Empty)
                &&& json.weights@.len() == 1 ==> (weight.builds(reader, tree)
                    <==> json.weights@[0].builds(reader, tree))
            },
            Weight::Boolean(boolean) => {
                &&& boolean.weights@.len() == 0 ==> (weight.builds(reader, tree) <==> tree
                    == ScorerTree::Empty)
                &&& boolean.weights@.len() == 1 && boolean.weights@[0].0 == Occur::MustNot ==> (
                weight.builds(reader, tree) <==> tree == ScorerTree::Empty)
                &&& boolean.weights@.len() == 1 && boolean.weights@[0].0 != Occur::MustNot ==> (
                weight.builds(reader, tree) <==> boolean.weights@[0].1.builds(reader, tree))
            },
        },
{
}

/// Whichever weights of a query are asked, they make the same scorers.
proof fn lemma_same_scorers(
    query: Query,
    enable_scoring: EnableScoring,
    one: Weight,
    other: Weight,
    reader: SegmentReader,
    tree: ScorerTree,
)
    requires
        query.weighs(enable_scoring, one),
        query.weighs(enable_scoring, other),
        one.builds(reader, tree),
    ensures
        other.builds(reader, tree),
    decreases query,
{
    match query {
        Query::Leaf(_) => {},
        Query::Json(json) => {
            let ones = one->Json_0.weights@;
            let others = other->Json_0.weights@;
            queries::lemma_weight_of_each(query, enable_scoring, one);
            queries::lemma_weight_of_each(query, enable_scoring, other);
            if ones.len() == 1 {
                assert(json.subqueries@[0].weighs(enable_scoring, ones[0]));
                assert(json.subqueries@[0].weighs(enable_scoring, others[0]));
                assert(decreases_to!(query => json.subqueries@[0]));
                lemma_same_scorers(
                    json.subqueries@[0],
                    enable_scoring,
                    ones[0],
                    others[0],
                    reader,
                    tree,
                );
            } else if ones.len() > 1 {
                let docsets = choose|docsets: Seq<ScorerTree>| #[trigger]
                    weight::json_tree(docsets, reader.num_docs) == tree && weight::all_build(
                        ones,
                        reader,
                        docsets,
                    );
                lemma_each_builds(ones, reader, docsets);
                assert forall|i: int|
                    #![trigger others[i]]
                    #![trigger docsets[i]]
                    0 <= i < others.len() implies others[i].builds(reader, docsets[i]) by {
                    assert(json.subqueries@[i].weighs(enable_scoring, ones[i]));
                    assert(json.subqueries@[i].weighs(enable_scoring, others[i]));
                    assert(ones[i].builds(reader, docsets[i]));
                    assert(decreases_to!(query => json.subqueries@[i]));
                    lemma_same_scorers(
                        json.subqueries@[i],
                        enable_scoring,
                        ones[i],
                        others[i],
                        reader,
                        docsets[i],
                    );
                }
                lemma_each_builds(others, reader, docsets);
            }
        },
    }
}

/// True when a scorer of `query` may go through `tree`.
pub open spec fn searches(
    query: Query,
    enable_scoring: EnableScoring,
    reader: SegmentReader,
    tree: ScorerTree,
) -> bool {
    exists|weight: Weight| #[trigger]
        query.weighs(enable_scoring, weight) && weight.builds(reader, tree)
}

/// What a JSON query finds: the documents that all subqueries find, however many there are, and
/// in which those that know of array paths have one in common. No subquery is passed over.
pub proof fn lemma_json_query_finds(
    query: JsonQuery,
    enable_scoring: EnableScoring,
    reader: SegmentReader,
    tree: ScorerTree,
    parts: Seq<ScorerTree>,
    doc: DocId,
)
    requires
        searches(Query::Json(query), enable_scoring, reader, tree),
        parts.len() == query.subqueries@.len(),
        forall|i: int|
            #![trigger parts[i]]
            0 <= i < parts.len() ==> searches(
                query.subqueries@[i],
                enable_scoring,
                reader,
                parts[i],
            ),
    ensures
        tree.matches(doc) <==> {
            &&& parts.len() > 0
            &&& forall|i: int| #![trigger parts[i]] 0 <= i < parts.len() ==> parts[i].matches(doc)
            &&& trees::all_know_one(
                Seq::new(parts.len(), |i: int| parts[i].json_array_paths(doc)),
            )
        },
{
    let weight = choose|weight: Weight| #[trigger]
        Query::Json(query).weighs(enable_scoring, weight) && weight.builds(reader, tree);
    let weights = weight->Json_0.weights@;
    queries::lemma_weight_of_each(Query::Json(query), enable_scoring, weight);
    assert forall|i: int|
        #![trigger weights[i]]
        #![trigger parts[i]]
        0 <= i < weights.len() implies weights[i].builds(reader, parts[i]) by {
        let own = choose|own: Weight| #[trigger]
            query.subqueries@[i].weighs(enable_scoring, own) && own.builds(reader, parts[i]);
        assert(query.subqueries@[i].weighs(enable_scoring, weights[i]));
        lemma_same_scorers(
            query.subqueries@[i],
            enable_scoring,
            own,
            weights[i],
            reader,
            parts[i],
        );
    }
    lemma_json_weight_finds(weights, weight, reader, tree, parts, doc);
}

/// What the weight of a JSON query finds, in terms of what the weights of its subqueries do.
pub proof fn lemma_json_weight_finds(
    weights: Seq<Weight>,
    weight: Weight,
    reader: SegmentReader,
    tree: ScorerTree,
    parts: Seq<ScorerTree>,
    doc: DocId,
)
    requires
        weight is Json,
        weights == weight->Json_0.weights@,
        weight.builds(reader, tree),
        each_builds(weights, reader, parts),
    ensures
        tree.matches(doc) <==> {
            &&& parts.len() > 0
            &&& forall|i: int| #![trigger parts[i]] 0 <= i < parts.len() ==> parts[i].matches(doc)
            &&& trees::all_know_one(
                Seq::new(parts.len(), |i: int| parts[i].json_array_paths(doc)),
            )
        },
{
    let clauses = Seq::new(parts.len(), |i: int| parts[i].json_array_paths(doc));
    if weights.len() == 0 {
        trees::lemma_matches(tree, doc);
    } else if weights.len() == 1 {
        assert(weights[0].builds(reader, parts[0]));
        weight::lemma_same_documents(weights[0], reader, tree, parts[0], doc);
        let path = if clauses[0] is Some && clauses[0]->0.len() > 0 {
            clauses[0]->0[0]
        } else {
            vstd::pervasive::arbitrary()
        };
        if clauses[0] is Some && clauses[0]->0.len() > 0 {
            assert(clauses[0]->0.contains(clauses[0]->0[0]));
        }
        assert(trees::known_to_all(clauses, path));
    } else {
        lemma_each_builds(weights, reader, parts);
        weight::lemma_json_documents(weight->Json_0, reader, tree, parts, doc);
        trees::lemma_agreement(clauses);
        assert(crate::query::clause_paths(parts, doc) =~= clauses);
    }
}

/// A document that a JSON query finds is one that each of its subqueries finds.
pub proof fn lemma_json_query_narrows(
    query: JsonQuery,
    enable_scoring: EnableScoring,
    reader: SegmentReader,
    tree: ScorerTree,
    at: int,
    part: ScorerTree,
    doc: DocId,
)
    requires
        searches(Query::Json(query), enable_scoring, reader, tree),
        0 <= at < query.subqueries@.len(),
        searches(query.subqueries@[at], enable_scoring, reader, part),
        tree.matches(doc),
    ensures
        part.matches(doc),
{
    let weight = choose|weight: Weight| #[trigger]
        Query::Json(query).weighs(enable_scoring, weight) && weight.builds(reader, tree);
    let weights = weight->Json_0.weights@;
    queries::lemma_weight_of_each(Query::Json(query), enable_scoring, weight);
    let own = choose|own: Weight| #[trigger]
        query.subqueries@[at].weighs(enable_scoring, own) && own.builds(reader, part);
    assert(query.subqueries@[at].weighs(enable_scoring, weights[at]));
    lemma_same_scorers(query.subqueries@[at], enable_scoring, own, weights[at], reader, part);
    if weights.len() == 1 {
        weight::lemma_same_documents(weights[0], reader, tree, part, doc);
    } else {
        let docsets = choose|docsets: Seq<ScorerTree>| #[trigger]
            weight::json_tree(docsets, reader.num_docs) == tree && weight::all_build(
                weights,
                reader,
                docsets,
            );
        lemma_each_builds(weights, reader, docsets);
        lemma_json_weight_finds(weights, weight, reader, tree, docsets, doc);
        assert(docsets[at].matches(doc));
        weight::lemma_same_documents(weights[at], reader, docsets[at], part, doc);
    }
}

} // verus!
