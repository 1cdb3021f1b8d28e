//! What an explanation and a score say, part by part.
use vstd::prelude::*;

use crate::docset::DocId;
use crate::query::boolean_query::boolean_weight::BooleanWeight;
use crate::query::boolean_query::Occur;
use crate::query::documents;
use crate::query::json_query::JsonWeight;
use crate::query::score;
use crate::query::score::ScoreTree;
use crate::query::weight;
use crate::query::weight::{Explanation, ExplanationKind, SearchError, SegmentReader, Weight};
use crate::query::ScorerTree;

verus! {

/// The words for what an explanation is about.
pub proof fn lemma_words(kind: ExplanationKind)
    ensures
        kind == ExplanationKind::Leaf ==> kind.text() == seq!['C', 'l', 'a', 'u', 's', 'e'],
        kind == ExplanationKind::JsonQuery ==> kind.text() == seq![
            'J',
            's',
            'o',
            'n',
            'Q',
            'u',
            'e',
            'r',
            'y',
        ],
        kind == ExplanationKind::BooleanWithoutScoring ==> kind.text()
            == "BooleanQuery with no scoring"@,
        kind == ExplanationKind::BooleanClause ==> kind.text() == "BooleanClause. sum of ..."@,
{
    reveal_strlit("Clause");
    reveal_strlit("JsonQuery");
    assert("Clause"@ =~= seq!['C', 'l', 'a', 'u', 's', 'e']);
    assert("JsonQuery"@ =~= seq!['J', 's', 'o', 'n', 'Q', 'u', 'e', 'r', 'y']);
}

/// An explanation is about the query it explains. Where scores are wanted its value is the score
/// of a scorer that stands on the document and has it, and where they are not, there is no
/// scorer and there are no details. In either case the document is one that is found.
pub proof fn lemma_explanation(
    weight: Weight,
    reader: SegmentReader,
    doc: DocId,
    explanation: Explanation,
)
    requires
        weight.explained_by(reader, doc, explanation),
    ensures
        weight is Leaf <==> explanation.kind == ExplanationKind::Leaf,
        weight is Json <==> explanation.kind == ExplanationKind::JsonQuery,
        weight is Boolean && weight->Boolean_0.scoring_enabled <==> explanation.kind
            == ExplanationKind::BooleanClause,
        weight is Boolean && !weight->Boolean_0.scoring_enabled <==> explanation.kind
            == ExplanationKind::BooleanWithoutScoring,
        explanation.scorer is None <==> weight is Boolean && !weight->Boolean_0.scoring_enabled,
        explanation.scorer is None ==> explanation.details@.len() == 0,
        weight is Leaf ==> explanation.details@.len() == 0,
        explanation.scorer matches Some(scorer) ==> {
            &&& scorer.wf()
            &&& scorer.stands_on(doc)
            &&& weight.builds(reader, scorer.tree())
            &&& scorer.tree().matches(doc)
        },
        exists|tree: ScorerTree| #[trigger] weight.builds(reader, tree) && tree.matches(doc),
        forall|tree: ScorerTree| #[trigger] weight.builds(reader, tree) ==> tree.matches(doc),
{
    reveal_with_fuel(Weight::explained_by, 2);
    if let Some(scorer) = explanation.scorer {
        assert(weight.builds(reader, scorer.tree()));
    }
    let found = choose|tree: ScorerTree| #[trigger]
        weight.builds(reader, tree) && tree.matches(doc);
    assert forall|tree: ScorerTree| #[trigger] weight.builds(reader, tree) implies tree.matches(
        doc,
    ) by {
        weight::lemma_same_documents(weight, reader, found, tree, doc);
    }
}

/// Where there is no explanation, the error is why there is no scorer, or else that the document
/// asked about does not match, and then no scorer has it.
pub proof fn lemma_refusal(weight: Weight, reader: SegmentReader, doc: DocId, error: SearchError)
    requires
        weight.refuses(reader, doc, error),
    ensures
        weight.failure(reader) is Some ==> weight.failure(reader) == Some(error),
        weight.failure(reader) is None ==> {
            &&& error == SearchError::DoesNotMatch(doc)
            &&& forall|tree: ScorerTree| #[trigger]
                weight.builds(reader, tree) ==> !tree.matches(doc)
            &&& forall|explanation: Explanation| !#[trigger]
                weight.explained_by(reader, doc, explanation)
        },
{
    if weight.failure(reader) is None {
        weight::lemma_refused_or_explained(weight, reader, doc);
        assert forall|tree: ScorerTree| #[trigger] weight.builds(reader, tree) implies !tree.matches(
            doc,
        ) by {
            if tree.matches(doc) {
                assert(weight.may_match(reader, doc));
            }
        }
        assert forall|explanation: Explanation| !#[trigger] weight.explained_by(
            reader,
            doc,
            explanation,
        ) by {
            if weight.explained_by(reader, doc, explanation) {
                lemma_explanation(weight, reader, doc, explanation);
            }
        }
    }
}

/// True when `details` explain `weights` one by one, those at the places `at`.
pub open spec fn explain_at(
    weights: Seq<Weight>,
    reader: SegmentReader,
    doc: DocId,
    details: Seq<Explanation>,
    at: Seq<int>,
) -> bool {
    &&& at.len() == details.len()
    &&& forall|k: int|
        #![trigger at[k]]
        0 <= k < at.len() ==> 0 <= at[k] < weights.len() && weights[at[k]].explained_by(
            reader,
            doc,
            details[k],
        )
    &&& forall|j: int, k: int| #![trigger at[j], at[k]] 0 <= j < k < at.len() ==> at[j] < at[k]
}

/// The details of an explanation of a JSON query explain its subqueries: all of them, each by
/// its own, in order.
pub proof fn lemma_json_details(
    weight: JsonWeight,
    reader: SegmentReader,
    doc: DocId,
    explanation: Explanation,
)
    requires
        Weight::Json(weight).failure(reader) is None,
        Weight::Json(weight).explained_by(reader, doc, explanation),
    ensures
        explanation.details@.len() == weight.weights@.len(),
        forall|i: int|
            #![trigger weight.weights@[i]]
            #![trigger explanation.details@[i]]
            0 <= i < weight.weights@.len() ==> weight.weights@[i].explained_by(
                reader,
                doc,
                explanation.details@[i],
            ),
{
    let weights = weight.weights@;
    let details = explanation.details@;
    let all = Weight::Json(weight);
    reveal_with_fuel(Weight::explained_by, 2);
    assert(weight::details_explain(weights, reader, doc, details));
    let tree = explanation.scorer->0.tree();
    assert(all.builds(reader, tree) && tree.matches(doc));
    documents::lemma_first_of_failures(weights, reader, vstd::pervasive::arbitrary());
    let parts = Seq::new(
        weights.len(),
        |i: int|
            choose|part: ScorerTree| #[trigger] weights[i].builds(reader, part),
    );
    assert forall|i: int|
        #![trigger weights[i]]
        #![trigger parts[i]]
        0 <= i < weights.len() implies weights[i].builds(reader, parts[i]) by {
        assert(weights[i].failure(reader) is None);
        weight::lemma_refused_or_explained(weights[i], reader, doc);
        assert(exists|part: ScorerTree| #[trigger] weights[i].builds(reader, part));
    }
    documents::lemma_json_weight_finds(weights, all, reader, tree, parts, doc);
    assert forall|i: int| #![trigger weights[i]] 0 <= i < weights.len() implies weights[i].failure(
        reader,
    ) is None && !weights[i].may_not_match(reader, doc) by {
        assert(parts[i].matches(doc));
        assert(weights[i].builds(reader, parts[i]));
        assert(weights[i].may_match(reader, doc));
        weight::lemma_refused_or_explained(weights[i], reader, doc);
    }
    lemma_all_explained(weights, reader, doc, details);
}

/// Where all weights match, all of them are explained.
proof fn lemma_all_explained(
    weights: Seq<Weight>,
    reader: SegmentReader,
    doc: DocId,
    details: Seq<Explanation>,
)
    requires
        weight::details_explain(weights, reader, doc, details),
        forall|i: int|
            #![trigger weights[i]]
            0 <= i < weights.len() ==> weights[i].failure(reader) is None
                && !weights[i].may_not_match(reader, doc),
    ensures
        details.len() == weights.len(),
        forall|i: int|
            #![trigger weights[i]]
            #![trigger details[i]]
            0 <= i < weights.len() ==> weights[i].explained_by(reader, doc, details[i]),
    decreases weights.len(),
{
    if weights.len() > 0 {
        let last = weights.len() - 1;
        assert(weights[last] == weights.last());
        let rest = weights.drop_last();
        assert forall|i: int| #![trigger rest[i]] 0 <= i < rest.len() implies rest[i].failure(
            reader,
        ) is None && !rest[i].may_not_match(reader, doc) by {
            assert(weights[i] == rest[i]);
        }
        lemma_all_explained(rest, reader, doc, details.drop_last());
        assert forall|i: int|
            #![trigger weights[i]]
            #![trigger details[i]]
            0 <= i < weights.len() implies weights[i].explained_by(reader, doc, details[i]) by {
            if i < last {
                assert(rest[i].explained_by(reader, doc, details.drop_last()[i]));
            }
        }
    }
}

/// The details of an explanation of a boolean query whose scores are wanted explain, each by
/// its own and in order, exactly those of its clauses that match the document and are meant
/// to.
pub proof fn lemma_boolean_details(
    weight: BooleanWeight,
    reader: SegmentReader,
    doc: DocId,
    explanation: Explanation,
) -> (at: Seq<int>)
    requires
        weight.scoring_enabled,
        Weight::Boolean(weight).explained_by(reader, doc, explanation),
        forall|i: int|
            #![trigger weight.weights@[i]]
            0 <= i < weight.weights@.len() ==> weight.weights@[i].1.failure(reader) is None,
    ensures
        explain_at(
            documents::clause_weights(weight.weights@),
            reader,
            doc,
            explanation.details@,
            at,
        ),
        forall|i: int|
            #![trigger weight.weights@[i]]
            0 <= i < weight.weights@.len() ==> (at.contains(i) <==> weight.weights@[i].0
                != Occur::MustNot && exists|part: ScorerTree| #[trigger]
                weight.weights@[i].1.builds(reader, part) && part.matches(doc)),
{
    reveal_with_fuel(Weight::explained_by, 2);
    lemma_clauses_explained(weight.weights@, reader, doc, explanation.details@)
}

/// Which clauses are explained.
proof fn lemma_clauses_explained(
    clauses: Seq<(Occur, Weight)>,
    reader: SegmentReader,
    doc: DocId,
    details: Seq<Explanation>,
) -> (at: Seq<int>)
    requires
        weight::clause_details_explain(clauses, reader, doc, details),
        forall|i: int|
            #![trigger clauses[i]]
            0 <= i < clauses.len() ==> clauses[i].1.failure(reader) is None,
    ensures
        explain_at(documents::clause_weights(clauses), reader, doc, details, at),
        forall|i: int|
            #![trigger clauses[i]]
            0 <= i < clauses.len() ==> (at.contains(i) <==> clauses[i].0 != Occur::MustNot
                && exists|part: ScorerTree| #[trigger]
                clauses[i].1.builds(reader, part) && part.matches(doc)),
    decreases clauses.len(),
{
    let weights = documents::clause_weights(clauses);
    if clauses.len() == 0 {
        let at = Seq::<int>::empty();
        assert(explain_at(weights, reader, doc, details, at));
        at
    } else {
        let last = clauses.len() - 1;
        let rest = clauses.drop_last();
        let clause = clauses.last();
        assert(clauses[last] == clause);
        assert(weights[last] == clause.1);
        assert(documents::clause_weights(rest) =~= weights.drop_last());
        assert forall|i: int| #![trigger rest[i]] 0 <= i < rest.len() implies rest[i].1.failure(
            reader,
        ) is None by {
            assert(clauses[i] == rest[i]);
        }
        weight::lemma_refused_or_explained(clause.1, reader, doc);
        if clause.0 != Occur::MustNot && details.len() > 0 && clause.1.explained_by(
            reader,
            doc,
            details.last(),
        ) && weight::clause_details_explain(rest, reader, doc, details.drop_last()) {
            let before = lemma_clauses_explained(rest, reader, doc, details.drop_last());
            lemma_explanation(clause.1, reader, doc, details.last());
            let at = before.push(last);
            assert forall|k: int| #![trigger at[k]] 0 <= k < at.len() implies 0 <= at[k]
                < weights.len() && weights[at[k]].explained_by(reader, doc, details[k]) by {
                if k < before.len() {
                    assert(before[k] == at[k]);
                    assert(documents::clause_weights(rest)[before[k]] == weights[before[k]]);
                    assert(details.drop_last()[k] == details[k]);
                }
            }
            assert forall|j: int, k: int|
                #![trigger at[j], at[k]]
                0 <= j < k < at.len() implies at[j] < at[k] by {
                assert(before[j] == at[j]);
                if k < before.len() {
                    assert(before[k] == at[k]);
                }
            }
            assert forall|i: int|
                #![trigger clauses[i]]
                0 <= i < clauses.len() implies (at.contains(i) <==> clauses[i].0 != Occur::MustNot
                && exists|part: ScorerTree| #[trigger]
                clauses[i].1.builds(reader, part) && part.matches(doc)) by {
                lemma_contains_pushed(before, last, i);
                if i < last {
                    assert(rest[i] == clauses[i]);
                } else {
                    assert(at.contains(i));
                }
            }
            at
        } else {
            let at = lemma_clauses_explained(rest, reader, doc, details);
            assert forall|k: int| #![trigger at[k]] 0 <= k < at.len() implies 0 <= at[k]
                < weights.len() && weights[at[k]].explained_by(reader, doc, details[k]) by {
                assert(documents::clause_weights(rest)[at[k]] == weights[at[k]]);
            }
            assert(!(clause.0 != Occur::MustNot && clause.1.may_match(reader, doc)));
            assert forall|i: int|
                #![trigger clauses[i]]
                0 <= i < clauses.len() implies (at.contains(i) <==> clauses[i].0 != Occur::MustNot
                && exists|part: ScorerTree| #[trigger]
                clauses[i].1.builds(reader, part) && part.matches(doc)) by {
                if i < last {
                    assert(rest[i] == clauses[i]);
                } else {
                    if at.contains(i) {
                        let k = choose|k: int| 0 <= k < at.len() && at[k] == i;
                        assert(at[k] < documents::clause_weights(rest).len());
                    }
                }
            }
            at
        }
    }
}

proof fn lemma_contains_pushed(items: Seq<int>, last: int, item: int)
    ensures
        items.push(last).contains(item) <==> items.contains(item) || item == last,
{
    let all = items.push(last);
    if items.contains(item) {
        let i = choose|i: int| 0 <= i < items.len() && items[i] == item;
        assert(all[i] == item);
    }
    if item == last {
        assert(all[items.len() as int] == item);
    }
    if all.contains(item) && item != last {
        let i = choose|i: int| 0 <= i < all.len() && all[i] == item;
        assert(items[i] == item);
    }
}

/// The scorer of a JSON query scores a document by the scorers of the subqueries: there are
/// `parts`, one for each, and the score is the sum of theirs, or that of the only one.
pub proof fn lemma_json_weight_scores(
    weight: JsonWeight,
    reader: SegmentReader,
    tree: ScorerTree,
) -> (parts: Seq<ScorerTree>)
    requires
        Weight::Json(weight).builds(reader, tree),
    ensures
        parts.len() == weight.weights@.len(),
        forall|i: int|
            #![trigger parts[i]]
            0 <= i < parts.len() ==> weight.weights@[i].builds(reader, parts[i]),
        parts.len() == 1 ==> tree == parts[0],
        parts.len() > 1 ==> forall|doc: DocId| #[trigger]
            tree.score(doc) == ScoreTree::Sum(
                parts.map_values(|part: ScorerTree| part.score(doc)),
            ),
        parts.len() > 1 ==> tree is JsonPaths && tree->JsonPaths_num_docs == reader.num_docs,
{
    let weights = weight.weights@;
    if weights.len() == 0 {
        Seq::empty()
    } else if weights.len() == 1 {
        seq![tree]
    } else {
        let parts = choose|parts: Seq<ScorerTree>| #[trigger]
            weight::json_tree(parts, reader.num_docs) == tree && weight::all_build(
                weights,
                reader,
                parts,
            );
        documents::lemma_each_builds(weights, reader, parts);
        assert forall|doc: DocId| #[trigger] tree.score(doc) == ScoreTree::Sum(
            parts.map_values(|part: ScorerTree| part.score(doc)),
        ) by {
            let docsets = tree->JsonPaths_docsets;
            score::lemma_scores_of_each(docsets, doc);
            let scores = docsets.map_values(|docset: ScorerTree| docset.score(doc));
            let own = parts.map_values(|part: ScorerTree| part.score(doc));
            assert forall|i: int| 0 <= i < parts.len() implies scores[i] == own[i] by {
                score::lemma_score_of_parts(docsets[i], doc);
                assert(docsets[i] == weight::json_clause(parts[i]));
            }
            assert(scores =~= own);
            score::lemma_score_of_parts(tree, doc);
            assert(score::all_scores(docsets, doc) == scores);
            reveal_with_fuel(ScorerTree::score, 2);
        }
        parts
    }
}

} // verus!
