//! Weights: what a query becomes, and what makes scorers for a segment.
use std::sync::Arc;

use vstd::prelude::*;

use crate::docset::{DocId, TERMINATED};
use crate::query;
use crate::query::boolean_query;
use crate::query::boolean_query::boolean_weight::BooleanWeight;
use crate::query::boolean_query::{Occur, SpecializedTree};
use crate::query::json_query::JsonWeight;
use crate::query::leaf_scorers::{
    FreqReadingOption, JsonConstraintKey, OtherScorer, PhraseScorer, TermScorer,
};
use crate::query::postings::PostingList;
use crate::query::{Leaf, ScoreCombiner, Scorer, ScorerTree};

verus! {

/// Why there is no scorer or no explanation.
#[derive(Clone, Copy, Debug, PartialEq, Eq, Structural)]
pub enum SearchError {
    /// The document is not one that the query matches.
    DoesNotMatch(DocId),
    /// A clause could not be read. The caller knows why by the number.
    Clause(u32),
}

/// Whether scores are wanted.
#[derive(Clone, Copy, Debug, PartialEq, Eq, Structural)]
pub enum EnableScoring {
    /// Scores are wanted.
    Enabled,
    /// Only documents are wanted.
    Disabled,
}

/// What a segment has for a clause that is looked up as it is.
pub enum Clause {
    /// Nothing: the term does not occur.
    Missing,
    /// A term.
    Term {
        handle: u32,
        list: Arc<PostingList>,
        json_constraint_key: Option<JsonConstraintKey>,
        freq_reading_option: FreqReadingOption,
    },
    /// A phrase.
    Phrase {
        handle: u32,
        list: Arc<PostingList>,
        json_constraint_key: Option<JsonConstraintKey>,
    },
    /// Documents that come from elsewhere.
    Other { handle: u32, list: Arc<PostingList> },
    /// The clause could not be read.
    Failed(SearchError),
}

impl Clause {
    /// What a scorer for the clause goes through.
    pub open spec fn outcome(self) -> Result<ScorerTree, SearchError> {
        match self {
            Clause::Missing => Ok(ScorerTree::Empty),
            Clause::Term { handle, list, json_constraint_key, freq_reading_option } => Ok(
                ScorerTree::Term {
                    leaf: Leaf { handle, postings: list@ },
                    json_constraint_key,
                    freq_reading_option,
                },
            ),
            Clause::Phrase { handle, list, json_constraint_key } => Ok(
                ScorerTree::Phrase {
                    leaf: Leaf { handle, postings: list@ },
                    json_constraint_key,
                },
            ),
            Clause::Other { handle, list } => Ok(
                ScorerTree::Other { leaf: Leaf { handle, postings: list@ } },
            ),
            Clause::Failed(error) => Err(error),
        }
    }
}

/// A segment, as the clauses of a query see it.
pub struct SegmentReader {
    /// The number of documents in the segment.
    pub num_docs: u32,
    /// What the segment has for each clause.
    pub clauses: Vec<Clause>,
}

impl SegmentReader {
    /// What a scorer for `clause` goes through.
    pub open spec fn outcome(self, clause: usize) -> Result<ScorerTree, SearchError> {
        if clause < self.clauses@.len() {
            self.clauses@[clause as int].outcome()
        } else {
            Ok(ScorerTree::Empty)
        }
    }

    /// The number of documents in the segment.
    pub fn num_docs(&self) -> (num_docs: u32)
        ensures
            num_docs == self.num_docs,
    {
        self.num_docs
    }

    /// A scorer for `clause`.
    pub fn scorer(&self, clause: usize) -> (scorer: Result<Scorer, SearchError>)
        ensures
            match scorer {
                Ok(scorer) => scorer.fresh() && self.outcome(clause) == Ok::<
                    ScorerTree,
                    SearchError,
                >(scorer.tree()),
                Err(error) => self.outcome(clause) == Err::<ScorerTree, SearchError>(error),
            },
    {
        if clause >= self.clauses.len() {
            return Ok(Scorer::Empty);
        }
        match &self.clauses[clause] {
            Clause::Missing => Ok(Scorer::Empty),
            Clause::Term { handle, list, json_constraint_key, freq_reading_option } => Ok(
                Scorer::Term(
                    TermScorer::new(
                        *handle,
                        list.clone(),
                        *json_constraint_key,
                        *freq_reading_option,
                    ),
                ),
            ),
            Clause::Phrase { handle, list, json_constraint_key } => Ok(
                Scorer::Phrase(PhraseScorer::new(*handle, list.clone(), *json_constraint_key)),
            ),
            Clause::Other { handle, list } => Ok(
                Scorer::Other(OtherScorer::new(*handle, list.clone())),
            ),
            Clause::Failed(error) => Err(*error),
        }
    }
}

/// The weight of a clause that is looked up as it is.
#[derive(Clone, Copy)]
pub struct LeafWeight {
    /// Names the clause in the segment.
    pub clause: usize,
    /// Whether scores are wanted.
    pub enable_scoring: EnableScoring,
}

/// Makes scorers for a segment.
pub enum Weight {
    /// The weight of a clause that is looked up as it is.
    Leaf(LeafWeight),
    /// The weight of a JSON query.
    Json(JsonWeight),
    /// The weight of a boolean query.
    Boolean(BooleanWeight),
}

/// What a clause of a JSON query goes through: where it is neither a term nor a phrase,
/// nothing is known of its paths.
pub open spec fn json_clause(tree: ScorerTree) -> ScorerTree {
    match tree {
        ScorerTree::Term { .. } => tree,
        ScorerTree::Phrase { .. } => tree,
        _ => ScorerTree::Passthrough { inner: Box::new(tree) },
    }
}

/// What several clauses of a JSON query go through together.
pub open spec fn json_tree(docsets: Seq<ScorerTree>, num_docs: u32) -> ScorerTree {
    ScorerTree::JsonPaths {
        docsets: docsets.map_values(|docset: ScorerTree| json_clause(docset)),
        num_docs,
    }
}

impl Weight {
    /// Why there is no scorer for `reader`, where there is none.
    pub open spec fn failure(self, reader: SegmentReader) -> Option<SearchError>
        decreases self,
    {
        match self {
            Weight::Leaf(weight) => match reader.outcome(weight.clause) {
                Ok(_) => None,
                Err(error) => Some(error),
            },
            Weight::Json(weight) => first_failure(weight.weights@, reader),
            Weight::Boolean(weight) => if weight.weights@.len() == 1 && weight.weights@[0].0
                == Occur::MustNot {
                None
            } else {
                first_clause_failure(weight.weights@, reader)
            },
        }
    }

    /// True when a scorer for `reader` may go through `tree`.
    pub open spec fn builds(self, reader: SegmentReader, tree: ScorerTree) -> bool
        decreases self,
    {
        match self {
            Weight::Leaf(weight) => reader.outcome(weight.clause) == Ok::<
                ScorerTree,
                SearchError,
            >(tree),
            Weight::Json(weight) => if weight.weights@.len() == 0 {
                tree == ScorerTree::Empty
            } else if weight.weights@.len() == 1 {
                weight.weights@[0].builds(reader, tree)
            } else {
                exists|docsets: Seq<ScorerTree>| #[trigger]
                    json_tree(docsets, reader.num_docs) == tree && all_build(
                        weight.weights@,
                        reader,
                        docsets,
                    )
            },
            Weight::Boolean(weight) => if weight.weights@.len() == 0 {
                tree == ScorerTree::Empty
            } else if weight.weights@.len() == 1 {
                if weight.weights@[0].0 == Occur::MustNot {
                    tree == ScorerTree::Empty
                } else {
                    weight.weights@[0].1.builds(reader, tree)
                }
            } else {
                exists|docsets: Seq<ScorerTree>| #[trigger]
                    weight.combines(docsets, reader.num_docs, tree) && all_clauses_build(
                        weight.weights@,
                        reader,
                        docsets,
                    )
            },
        }
    }
}

/// Why the first of several weights that has no scorer has none.
pub open spec fn first_failure(weights: Seq<Weight>, reader: SegmentReader) -> Option<SearchError>
    decreases weights,
{
    if weights.len() == 0 {
        None
    } else {
        match first_failure(weights.drop_last(), reader) {
            Some(error) => Some(error),
            None => weights.last().failure(reader),
        }
    }
}

/// True when scorers of several weights may go through `docsets`.
pub open spec fn all_build(
    weights: Seq<Weight>,
    reader: SegmentReader,
    docsets: Seq<ScorerTree>,
) -> bool
    decreases weights,
{
    if weights.len() == 0 {
        docsets.len() == 0
    } else {
        &&& docsets.len() == weights.len()
        &&& all_build(weights.drop_last(), reader, docsets.drop_last())
        &&& weights.last().builds(reader, docsets.last())
    }
}

/// Why the first of several clauses that has no scorer has none.
pub open spec fn first_clause_failure(clauses: Seq<(Occur, Weight)>, reader: SegmentReader) -> Option<
    SearchError,
>
    decreases clauses,
{
    if clauses.len() == 0 {
        None
    } else {
        match first_clause_failure(clauses.drop_last(), reader) {
            Some(error) => Some(error),
            None => clauses.last().1.failure(reader),
        }
    }
}

/// True when scorers of several clauses may go through `docsets`.
pub open spec fn all_clauses_build(
    clauses: Seq<(Occur, Weight)>,
    reader: SegmentReader,
    docsets: Seq<ScorerTree>,
) -> bool
    decreases clauses,
{
    if clauses.len() == 0 {
        docsets.len() == 0
    } else {
        &&& docsets.len() == clauses.len()
        &&& all_clauses_build(clauses.drop_last(), reader, docsets.drop_last())
        &&& clauses.last().1.builds(reader, docsets.last())
    }
}

impl Weight {
    /// A scorer for `reader`, on its first document.
    pub fn scorer(&self, reader: &SegmentReader) -> (scorer: Result<Scorer, SearchError>)
        ensures
            match scorer {
                Ok(scorer) => {
                    &&& scorer.fresh()
                    &&& self.failure(*reader) is None
                    &&& self.builds(*reader, scorer.tree())
                },
                Err(error) => self.failure(*reader) == Some(error),
            },
        decreases self, 3nat,
    {
        match self {
            Weight::Leaf(weight) => reader.scorer(weight.clause),
            Weight::Json(weight) => weight.scorer(reader),
            Weight::Boolean(weight) => weight.scorer(reader),
        }
    }
}

/// The first failure is that of the first weight that fails.
pub(crate) proof fn lemma_first_failure(
    weights: Seq<Weight>,
    reader: SegmentReader,
    at: int,
    error: SearchError,
)
    requires
        0 <= at < weights.len(),
        first_failure(weights.take(at), reader) is None,
        weights[at].failure(reader) == Some(error),
    ensures
        first_failure(weights, reader) == Some(error),
    decreases weights.len() - at,
{
    if at == weights.len() - 1 {
        assert(weights.take(at) =~= weights.drop_last());
    } else {
        let rest = weights.drop_last();
        assert(rest.take(at) =~= weights.take(at));
        lemma_first_failure(rest, reader, at, error);
    }
}

/// The first failure is that of the first clause that fails.
pub(crate) proof fn lemma_first_clause_failure(
    clauses: Seq<(Occur, Weight)>,
    reader: SegmentReader,
    at: int,
    error: SearchError,
)
    requires
        0 <= at < clauses.len(),
        first_clause_failure(clauses.take(at), reader) is None,
        clauses[at].1.failure(reader) == Some(error),
    ensures
        first_clause_failure(clauses, reader) == Some(error),
    decreases clauses.len() - at,
{
    if at == clauses.len() - 1 {
        assert(clauses.take(at) =~= clauses.drop_last());
    } else {
        let rest = clauses.drop_last();
        assert(rest.take(at) =~= clauses.take(at));
        lemma_first_clause_failure(rest, reader, at, error);
    }
}

/// What an explanation is about.
#[derive(Clone, Copy, Debug, PartialEq, Eq, Structural)]
pub enum ExplanationKind {
    /// A clause that is looked up as it is.
    Leaf,
    /// A JSON query.
    JsonQuery,
    /// A boolean query, where no scores are wanted.
    BooleanWithoutScoring,
    /// A boolean query.
    BooleanClause,
}

impl ExplanationKind {
    /// The words for it.
    pub open spec fn text(self) -> Seq<char> {
        match self {
            ExplanationKind::Leaf => "Clause"@,
            ExplanationKind::JsonQuery => "JsonQuery"@,
            ExplanationKind::BooleanWithoutScoring => "BooleanQuery with no scoring"@,
            ExplanationKind::BooleanClause => "BooleanClause. sum of ..."@,
        }
    }
}

/// Why a document matches.
pub struct Explanation {
    /// What the explanation is about.
    pub kind: ExplanationKind,
    /// The scorer whose score on the document is the value. Without one the value is one.
    pub scorer: Option<Scorer>,
    /// The explanations of the parts that match too.
    pub details: Vec<Explanation>,
}

impl Explanation {
    /// The words for what the explanation is about.
    pub fn description(&self) -> (description: &'static str)
        ensures
            description@ == self.kind.text(),
    {
        match self.kind {
            ExplanationKind::Leaf => "Clause",
            ExplanationKind::JsonQuery => "JsonQuery",
            ExplanationKind::BooleanWithoutScoring => "BooleanQuery with no scoring",
            ExplanationKind::BooleanClause => "BooleanClause. sum of ...",
        }
    }

    /// True when the value is the score of a scorer of `weight` that stands on `doc`.
    pub open spec fn has_score_of(self, weight: Weight, reader: SegmentReader, doc: DocId) -> bool {
        &&& self.scorer is Some
        &&& self.scorer->0.wf()
        &&& self.scorer->0.stands_on(doc)
        &&& weight.builds(reader, self.scorer->0.tree())
        &&& self.scorer->0.tree().matches(doc)
    }
}

impl Weight {
    /// True when some scorer for `reader` has `doc`.
    pub open spec fn may_match(self, reader: SegmentReader, doc: DocId) -> bool {
        exists|tree: ScorerTree| #[trigger] self.builds(reader, tree) && tree.matches(doc)
    }

    /// True when some scorer for `reader` does not have `doc`.
    pub open spec fn may_not_match(self, reader: SegmentReader, doc: DocId) -> bool {
        exists|tree: ScorerTree| #[trigger] self.builds(reader, tree) && !tree.matches(doc)
    }

    /// True when `error` is why there is no explanation of `doc`.
    pub open spec fn refuses(self, reader: SegmentReader, doc: DocId, error: SearchError) -> bool {
        match self.failure(reader) {
            Some(failure) => error == failure,
            None => error == SearchError::DoesNotMatch(doc) && self.may_not_match(reader, doc),
        }
    }

    /// True when `explanation` says why `doc` matches.
    pub open spec fn explained_by(
        self,
        reader: SegmentReader,
        doc: DocId,
        explanation: Explanation,
    ) -> bool
        decreases self,
    {
        match self {
            Weight::Leaf(_) => {
                &&& explanation.kind == ExplanationKind::Leaf
                &&& explanation.has_score_of(self, reader, doc)
                &&& explanation.details@.len() == 0
            },
            Weight::Json(weight) => {
                &&& explanation.kind == ExplanationKind::JsonQuery
                &&& explanation.has_score_of(self, reader, doc)
                &&& details_explain(weight.weights@, reader, doc, explanation.details@)
            },
            Weight::Boolean(weight) => if weight.scoring_enabled {
                &&& explanation.kind == ExplanationKind::BooleanClause
                &&& explanation.has_score_of(self, reader, doc)
                &&& clause_details_explain(weight.weights@, reader, doc, explanation.details@)
            } else {
                &&& explanation.kind == ExplanationKind::BooleanWithoutScoring
                &&& explanation.scorer is None
                &&& explanation.details@.len() == 0
                &&& self.may_match(reader, doc)
            },
        }
    }
}

/// True when `details` explain, in order, those of several weights that match `doc`.
pub open spec fn details_explain(
    weights: Seq<Weight>,
    reader: SegmentReader,
    doc: DocId,
    details: Seq<Explanation>,
) -> bool
    decreases weights,
{
    if weights.len() == 0 {
        details.len() == 0
    } else {
        ||| {
            &&& details.len() > 0
            &&& weights.last().explained_by(reader, doc, details.last())
            &&& details_explain(weights.drop_last(), reader, doc, details.drop_last())
        }
        ||| {
            &&& weights.last().failure(reader) is Some || weights.last().may_not_match(
                reader,
                doc,
            )
            &&& details_explain(weights.drop_last(), reader, doc, details)
        }
    }
}

/// True when `details` explain, in order, those of several clauses that match `doc` and are
/// meant to.
pub open spec fn clause_details_explain(
    clauses: Seq<(Occur, Weight)>,
    reader: SegmentReader,
    doc: DocId,
    details: Seq<Explanation>,
) -> bool
    decreases clauses,
{
    if clauses.len() == 0 {
        details.len() == 0
    } else {
        ||| {
            &&& clauses.last().0 != Occur::MustNot
            &&& details.len() > 0
            &&& clauses.last().1.explained_by(reader, doc, details.last())
            &&& clause_details_explain(clauses.drop_last(), reader, doc, details.drop_last())
        }
        ||| {
            &&& clauses.last().0 == Occur::MustNot || clauses.last().1.failure(reader) is Some
                || clauses.last().1.may_not_match(reader, doc)
            &&& clause_details_explain(clauses.drop_last(), reader, doc, details)
        }
    }
}

impl LeafWeight {
    /// Says why `doc` matches.
    pub fn explain(&self, reader: &SegmentReader, doc: DocId) -> (explanation: Result<
        Explanation,
        SearchError,
    >)
        requires
            doc != TERMINATED,
        ensures
            match explanation {
                Ok(explanation) => Weight::Leaf(*self).explained_by(*reader, doc, explanation),
                Err(error) => Weight::Leaf(*self).refuses(*reader, doc, error),
            },
    {
        let mut scorer = match reader.scorer(self.clause) {
            Ok(scorer) => scorer,
            Err(error) => {
                return Err(error);
            },
        };
        let ghost first = scorer;
        assert(Weight::Leaf(*self).builds(*reader, scorer.tree()));
        let found: DocId = scorer.seek(doc);
        assert(scorer.has(doc) <==> first.has(doc));
        if found != doc {
            return Err(SearchError::DoesNotMatch(doc));
        }
        Ok(
            Explanation {
                kind: ExplanationKind::Leaf,
                scorer: Some(scorer),
                details: Vec::new(),
            },
        )
    }
}

impl Weight {
    /// Says why `doc` matches.
    pub fn explain(&self, reader: &SegmentReader, doc: DocId) -> (explanation: Result<
        Explanation,
        SearchError,
    >)
        requires
            doc != TERMINATED,
        ensures
            match explanation {
                Ok(explanation) => self.explained_by(*reader, doc, explanation),
                Err(error) => self.refuses(*reader, doc, error),
            },
        decreases self, 1nat,
    {
        match self {
            Weight::Leaf(weight) => weight.explain(reader, doc),
            Weight::Json(weight) => weight.explain(reader, doc),
            Weight::Boolean(weight) => weight.explain(reader, doc),
        }
    }
}

/// All scorers that a weight may make for a segment have the same documents: in which order
/// the JSON fields of a boolean query are walked makes no difference.
pub proof fn lemma_same_documents(
    weight: Weight,
    reader: SegmentReader,
    one: ScorerTree,
    other: ScorerTree,
    doc: DocId,
)
    requires
        weight.builds(reader, one),
        weight.builds(reader, other),
    ensures
        one.matches(doc) <==> other.matches(doc),
{
    lemma_alike(weight, reader, one, other, doc);
}

/// Where there is no failure, a document has an explanation or is refused, and never both.
pub proof fn lemma_refused_or_explained(weight: Weight, reader: SegmentReader, doc: DocId)
    ensures
        !(weight.may_match(reader, doc) && weight.may_not_match(reader, doc)),
        weight.failure(reader) is None ==> weight.may_match(reader, doc) || weight.may_not_match(
            reader,
            doc,
        ),
{
    if weight.may_match(reader, doc) && weight.may_not_match(reader, doc) {
        let one = choose|tree: ScorerTree| #[trigger]
            weight.builds(reader, tree) && tree.matches(doc);
        let other = choose|tree: ScorerTree| #[trigger]
            weight.builds(reader, tree) && !tree.matches(doc);
        lemma_same_documents(weight, reader, one, other, doc);
    }
    if weight.failure(reader) is None {
        let tree = lemma_built(weight, reader);
        assert(weight.builds(reader, tree));
    }
}

/// A weight without a failure has a scorer.
proof fn lemma_built(weight: Weight, reader: SegmentReader) -> (tree: ScorerTree)
    requires
        weight.failure(reader) is None,
    ensures
        weight.builds(reader, tree),
    decreases weight,
{
    match weight {
        Weight::Leaf(leaf) => reader.outcome(leaf.clause)->Ok_0,
        Weight::Json(json) => {
            let weights = json.weights@;
            let docsets = lemma_all_built(weights, reader);
            if weights.len() == 0 {
                ScorerTree::Empty
            } else if weights.len() == 1 {
                assert(weights.last() == weights[0]);
                docsets.last()
            } else {
                json_tree(docsets, reader.num_docs)
            }
        },
        Weight::Boolean(boolean) => {
            let clauses = boolean.weights@;
            if clauses.len() == 0 || (clauses.len() == 1 && clauses[0].0 == Occur::MustNot) {
                ScorerTree::Empty
            } else {
                let docsets = lemma_all_clauses_built(clauses, reader);
                if clauses.len() == 1 {
                    assert(clauses.last() == clauses[0]);
                    docsets.last()
                } else {
                    let num_docs = reader.num_docs;
                    let occurs = boolean.occurs();
                    let must = boolean_query::of_occur(occurs, docsets, Occur::Must);
                    let keys = boolean_query::lemma_key_order(must);
                    let combination = boolean.combination(boolean.combiner(), num_docs);
                    let specialized = combination.complex_tree(
                        boolean_query::constrained(must, keys, num_docs),
                        boolean_query::of_occur(occurs, docsets, Occur::Should),
                        boolean_query::of_occur(occurs, docsets, Occur::MustNot),
                    );
                    assert(combination.combines(occurs, docsets, specialized));
                    let tree = boolean_query::boxed_tree(
                        specialized,
                        boolean.combiner(),
                        num_docs,
                    );
                    assert(boolean.combines(docsets, num_docs, tree));
                    tree
                }
            }
        },
    }
}

proof fn lemma_all_built(weights: Seq<Weight>, reader: SegmentReader) -> (docsets: Seq<ScorerTree>)
    requires
        first_failure(weights, reader) is None,
    ensures
        all_build(weights, reader, docsets),
    decreases weights,
{
    if weights.len() == 0 {
        Seq::empty()
    } else {
        let before = lemma_all_built(weights.drop_last(), reader);
        let last = lemma_built(weights.last(), reader);
        assert(before.push(last).drop_last() =~= before);
        before.push(last)
    }
}

proof fn lemma_all_clauses_built(clauses: Seq<(Occur, Weight)>, reader: SegmentReader) -> (docsets:
    Seq<ScorerTree>)
    requires
        first_clause_failure(clauses, reader) is None,
    ensures
        all_clauses_build(clauses, reader, docsets),
    decreases clauses,
{
    if clauses.len() == 0 {
        Seq::empty()
    } else {
        let before = lemma_all_clauses_built(clauses.drop_last(), reader);
        let last = lemma_built(clauses.last().1, reader);
        assert(before.push(last).drop_last() =~= before);
        before.push(last)
    }
}

/// The documents that a scorer for visiting has are those that the combination of the clauses
/// accepts, however many clauses there are.
pub proof fn lemma_visited_documents(
    weight: BooleanWeight,
    reader: SegmentReader,
    score_combiner: ScoreCombiner,
    union_combiner: ScoreCombiner,
    visited: ScorerTree,
    docsets: Seq<ScorerTree>,
    doc: DocId,
)
    requires
        weight.visits(reader, score_combiner, union_combiner, visited),
        all_clauses_build(weight.weights@, reader, docsets),
    ensures
        visited.matches(doc) <==> weight.accepts(docsets, reader.num_docs, doc),
{
    let clauses = weight.weights@;
    let occurs = weight.occurs();
    let num_docs = reader.num_docs;
    let specialized = choose|specialized: SpecializedTree| #[trigger]
        weight.complex_builds(reader, score_combiner, specialized) && visited
            == boolean_query::boxed_tree(specialized, union_combiner, num_docs);
    let combination = weight.combination(score_combiner, num_docs);
    let own = choose|own: Seq<ScorerTree>| #[trigger]
        all_clauses_build(clauses, reader, own) && combination.combines(occurs, own, specialized);
    boolean_query::lemma_boolean_matches(
        combination,
        occurs,
        own,
        specialized,
        union_combiner,
        doc,
    );
    lemma_all_clauses_alike(clauses, reader, own, docsets, doc);
    boolean_query::lemma_accepts_alike(combination, occurs, own, docsets, doc);
    assert(weight.accepts(docsets, num_docs, doc) <==> combination.accepts(
        boolean_query::of_occur(occurs, docsets, Occur::Must),
        boolean_query::of_occur(occurs, docsets, Occur::Should),
        boolean_query::of_occur(occurs, docsets, Occur::MustNot),
        doc,
    ));
}

/// Documents visited with scores are those visited without: neither the combiners nor the
/// order in which the JSON fields are walked make a difference, nor does the number of clauses.
pub proof fn lemma_visits_alike(
    weight: BooleanWeight,
    reader: SegmentReader,
    score_combiner: ScoreCombiner,
    union_combiner: ScoreCombiner,
    visited: ScorerTree,
    other_score_combiner: ScoreCombiner,
    other_union_combiner: ScoreCombiner,
    other: ScorerTree,
    doc: DocId,
)
    requires
        weight.visits(reader, score_combiner, union_combiner, visited),
        weight.visits(reader, other_score_combiner, other_union_combiner, other),
    ensures
        visited.matches(doc) <==> other.matches(doc),
{
    let specialized = choose|specialized: SpecializedTree| #[trigger]
        weight.complex_builds(reader, score_combiner, specialized) && visited
            == boolean_query::boxed_tree(specialized, union_combiner, reader.num_docs);
    let docsets = choose|docsets: Seq<ScorerTree>| #[trigger]
        all_clauses_build(weight.weights@, reader, docsets) && weight.combination(
            score_combiner,
            reader.num_docs,
        ).combines(weight.occurs(), docsets, specialized);
    lemma_visited_documents(
        weight,
        reader,
        score_combiner,
        union_combiner,
        visited,
        docsets,
        doc,
    );
    lemma_visited_documents(
        weight,
        reader,
        other_score_combiner,
        other_union_combiner,
        other,
        docsets,
        doc,
    );
}

/// The scorer of several clauses is one for visiting them.
pub(crate) proof fn lemma_scorer_visits(weight: BooleanWeight, reader: SegmentReader, scorer: ScorerTree)
    requires
        weight.weights@.len() > 1,
        Weight::Boolean(weight).builds(reader, scorer),
    ensures
        weight.visits(reader, weight.combiner(), weight.combiner(), scorer),
{
    let combiner = weight.combiner();
    let docsets = choose|docsets: Seq<ScorerTree>| #[trigger]
        weight.combines(docsets, reader.num_docs, scorer) && all_clauses_build(
            weight.weights@,
            reader,
            docsets,
        );
    let specialized = choose|specialized: SpecializedTree| #[trigger]
        weight.combination(combiner, reader.num_docs).combines(
            weight.occurs(),
            docsets,
            specialized,
        ) && scorer == boolean_query::boxed_tree(specialized, combiner, reader.num_docs);
    assert(weight.complex_builds(reader, combiner, specialized));
}

/// The scorer of a boolean weight of several clauses has the documents that the combination of
/// its clauses accepts, and a scorer for visiting them has the same ones.
pub proof fn lemma_boolean_documents(
    weight: BooleanWeight,
    reader: SegmentReader,
    scorer: ScorerTree,
    score_combiner: ScoreCombiner,
    union_combiner: ScoreCombiner,
    visited: ScorerTree,
    doc: DocId,
)
    requires
        weight.weights@.len() > 1,
        Weight::Boolean(weight).builds(reader, scorer),
        weight.visits(reader, score_combiner, union_combiner, visited),
    ensures
        scorer.matches(doc) <==> visited.matches(doc),
        forall|docsets: Seq<ScorerTree>| #[trigger]
            all_clauses_build(weight.weights@, reader, docsets) ==> (scorer.matches(doc)
                <==> weight.accepts(docsets, reader.num_docs, doc)),
{
    let combiner = weight.combiner();
    lemma_scorer_visits(weight, reader, scorer);
    lemma_visits_alike(
        weight,
        reader,
        combiner,
        combiner,
        scorer,
        score_combiner,
        union_combiner,
        visited,
        doc,
    );
    assert forall|docsets: Seq<ScorerTree>| #[trigger]
        all_clauses_build(weight.weights@, reader, docsets) implies (scorer.matches(doc)
        <==> weight.accepts(docsets, reader.num_docs, doc)) by {
        lemma_visited_documents(weight, reader, combiner, combiner, scorer, docsets, doc);
    }
}

/// True when `other` has the clauses of `weight`, but all that may match have to.
pub open spec fn with_all_must(weight: BooleanWeight, other: BooleanWeight) -> bool {
    &&& other.minimum_number_should_match == 0
    &&& other.weights@.len() == weight.weights@.len()
    &&& forall|i: int|
        0 <= i < weight.weights@.len() ==> (#[trigger] other.weights@[i]) == (
        boolean_query::should_as_must(weight.weights@[i].0),
        weight.weights@[i].1,
    )
}

/// The same weights have the same scorers, whatever their clauses have to do with a match.
proof fn lemma_same_clauses_build(
    one: Seq<(Occur, Weight)>,
    other: Seq<(Occur, Weight)>,
    reader: SegmentReader,
    docsets: Seq<ScorerTree>,
)
    requires
        one.len() == other.len(),
        forall|i: int| 0 <= i < one.len() ==> (#[trigger] other[i]).1 == one[i].1,
        all_clauses_build(one, reader, docsets),
    ensures
        all_clauses_build(other, reader, docsets),
    decreases one.len(),
{
    if one.len() > 0 {
        assert forall|i: int| 0 <= i < one.len() - 1 implies (#[trigger] other.drop_last()[i]).1
            == one.drop_last()[i].1 by {
            assert(other[i].1 == one[i].1);
        }
        lemma_same_clauses_build(one.drop_last(), other.drop_last(), reader, docsets.drop_last());
        assert(other[one.len() - 1].1 == one[one.len() - 1].1);
    }
}

/// Where as many of the clauses that may match have to as there are, at least two, the scorer
/// has the documents that it would have if these clauses had to match anyway. This is so where
/// no two of the clauses are of the same JSON field.
pub proof fn lemma_all_should_match(
    weight: BooleanWeight,
    other: BooleanWeight,
    reader: SegmentReader,
    scorer: ScorerTree,
    other_scorer: ScorerTree,
    docsets: Seq<ScorerTree>,
    doc: DocId,
)
    requires
        Weight::Boolean(weight).builds(reader, scorer),
        Weight::Boolean(other).builds(reader, other_scorer),
        with_all_must(weight, other),
        all_clauses_build(weight.weights@, reader, docsets),
        weight.minimum_number_should_match >= 2,
        weight.minimum_number_should_match == boolean_query::of_occur(
            weight.occurs(),
            docsets,
            Occur::Should,
        ).len(),
        boolean_query::no_shared_key(
            boolean_query::of_occur(other.occurs(), docsets, Occur::Must),
        ),
    ensures
        scorer.matches(doc) <==> other_scorer.matches(doc),
{
    let occurs = weight.occurs();
    assert(other.occurs() =~= boolean_query::all_must(occurs));
    boolean_query::lemma_of_occur_len(occurs, docsets, Occur::Should);
    lemma_same_clauses_build(weight.weights@, other.weights@, reader, docsets);
    lemma_scorer_visits(weight, reader, scorer);
    lemma_scorer_visits(other, reader, other_scorer);
    lemma_visited_documents(
        weight,
        reader,
        weight.combiner(),
        weight.combiner(),
        scorer,
        docsets,
        doc,
    );
    lemma_visited_documents(
        other,
        reader,
        other.combiner(),
        other.combiner(),
        other_scorer,
        docsets,
        doc,
    );
    boolean_query::lemma_all_should_match(
        weight.combination(weight.combiner(), reader.num_docs),
        occurs,
        docsets,
        doc,
    );
}

/// The scorer of a JSON weight of several clauses has the documents in which all clauses match
/// and those that know of JSON array paths have one in common.
pub proof fn lemma_json_documents(
    weight: JsonWeight,
    reader: SegmentReader,
    scorer: ScorerTree,
    docsets: Seq<ScorerTree>,
    doc: DocId,
)
    requires
        weight.weights@.len() > 1,
        Weight::Json(weight).builds(reader, scorer),
        all_build(weight.weights@, reader, docsets),
    ensures
        scorer.matches(doc) <==> boolean_query::all_match(docsets, doc) && query::paths_agree(
            query::clause_paths(docsets, doc),
        ),
{
    let weights = weight.weights@;
    let ones = choose|docsets: Seq<ScorerTree>| #[trigger]
        json_tree(docsets, reader.num_docs) == scorer && all_build(weights, reader, docsets);
    lemma_all_alike(weights, reader, ones, docsets, doc);
    lemma_json_alike(ones, docsets, reader.num_docs, doc);
    lemma_json_matches(docsets, reader.num_docs, doc);
}

proof fn lemma_alike(
    weight: Weight,
    reader: SegmentReader,
    one: ScorerTree,
    other: ScorerTree,
    doc: DocId,
)
    requires
        weight.builds(reader, one),
        weight.builds(reader, other),
    ensures
        boolean_query::alike(one, other, doc),
    decreases weight,
{
    match weight {
        Weight::Leaf(_) => {},
        Weight::Json(json) => {
            let weights = json.weights@;
            if weights.len() == 1 {
                lemma_alike(weights[0], reader, one, other, doc);
            } else if weights.len() > 1 {
                let ones = choose|docsets: Seq<ScorerTree>| #[trigger]
                    json_tree(docsets, reader.num_docs) == one && all_build(
                        weights,
                        reader,
                        docsets,
                    );
                let others = choose|docsets: Seq<ScorerTree>| #[trigger]
                    json_tree(docsets, reader.num_docs) == other && all_build(
                        weights,
                        reader,
                        docsets,
                    );
                lemma_all_alike(weights, reader, ones, others, doc);
                lemma_json_alike(ones, others, reader.num_docs, doc);
            }
        },
        Weight::Boolean(boolean) => {
            let clauses = boolean.weights@;
            if clauses.len() == 1 {
                if clauses[0].0 != Occur::MustNot {
                    lemma_alike(clauses[0].1, reader, one, other, doc);
                }
            } else if clauses.len() > 1 {
                let ones = choose|docsets: Seq<ScorerTree>| #[trigger]
                    boolean.combines(docsets, reader.num_docs, one) && all_clauses_build(
                        clauses,
                        reader,
                        docsets,
                    );
                let others = choose|docsets: Seq<ScorerTree>| #[trigger]
                    boolean.combines(docsets, reader.num_docs, other) && all_clauses_build(
                        clauses,
                        reader,
                        docsets,
                    );
                lemma_all_clauses_alike(clauses, reader, ones, others, doc);
                let combination = boolean.combination(boolean.combiner(), reader.num_docs);
                let one_specialized = choose|specialized: SpecializedTree| #[trigger]
                    combination.combines(boolean.occurs(), ones, specialized) && one
                        == boolean_query::boxed_tree(
                        specialized,
                        boolean.combiner(),
                        reader.num_docs,
                    );
                let other_specialized = choose|specialized: SpecializedTree| #[trigger]
                    combination.combines(boolean.occurs(), others, specialized) && other
                        == boolean_query::boxed_tree(
                        specialized,
                        boolean.combiner(),
                        reader.num_docs,
                    );
                boolean_query::lemma_combinations_alike(
                    combination,
                    boolean.occurs(),
                    ones,
                    others,
                    one_specialized,
                    other_specialized,
                    boolean.combiner(),
                    doc,
                );
            }
        },
    }
}

proof fn lemma_all_alike(
    weights: Seq<Weight>,
    reader: SegmentReader,
    ones: Seq<ScorerTree>,
    others: Seq<ScorerTree>,
    doc: DocId,
)
    requires
        all_build(weights, reader, ones),
        all_build(weights, reader, others),
    ensures
        ones.len() == weights.len(),
        boolean_query::all_alike(ones, others, doc),
    decreases weights,
{
    if weights.len() > 0 {
        lemma_all_alike(weights.drop_last(), reader, ones.drop_last(), others.drop_last(), doc);
        lemma_alike(weights.last(), reader, ones.last(), others.last(), doc);
        assert forall|i: int| 0 <= i < ones.len() implies boolean_query::alike(
            #[trigger] ones[i],
            others[i],
            doc,
        ) by {
            if i < ones.len() - 1 {
                assert(boolean_query::alike(ones.drop_last()[i], others.drop_last()[i], doc));
            }
        }
    }
}

proof fn lemma_all_clauses_alike(
    clauses: Seq<(Occur, Weight)>,
    reader: SegmentReader,
    ones: Seq<ScorerTree>,
    others: Seq<ScorerTree>,
    doc: DocId,
)
    requires
        all_clauses_build(clauses, reader, ones),
        all_clauses_build(clauses, reader, others),
    ensures
        ones.len() == clauses.len(),
        boolean_query::all_alike(ones, others, doc),
    decreases clauses,
{
    if clauses.len() > 0 {
        lemma_all_clauses_alike(
            clauses.drop_last(),
            reader,
            ones.drop_last(),
            others.drop_last(),
            doc,
        );
        lemma_alike(clauses.last().1, reader, ones.last(), others.last(), doc);
        assert forall|i: int| 0 <= i < ones.len() implies boolean_query::alike(
            #[trigger] ones[i],
            others[i],
            doc,
        ) by {
            if i < ones.len() - 1 {
                assert(boolean_query::alike(ones.drop_last()[i], others.drop_last()[i], doc));
            }
        }
    }
}

/// Clauses of a JSON query that are alike agree alike.
proof fn lemma_json_alike(
    ones: Seq<ScorerTree>,
    others: Seq<ScorerTree>,
    num_docs: u32,
    doc: DocId,
)
    requires
        boolean_query::all_alike(ones, others, doc),
    ensures
        boolean_query::alike(json_tree(ones, num_docs), json_tree(others, num_docs), doc),
{
    lemma_json_matches(ones, num_docs, doc);
    lemma_json_matches(others, num_docs, doc);
    assert forall|i: int| 0 <= i < ones.len() implies (#[trigger] ones[i]).json_array_paths(doc)
        == others[i].json_array_paths(doc) && (ones[i].matches(doc) <==> others[i].matches(
        doc,
    )) by {
        assert(boolean_query::alike(ones[i], others[i], doc));
    }
    assert(query::clause_paths(ones, doc) =~= query::clause_paths(others, doc));
    if boolean_query::all_match(ones, doc) {
        assert forall|i: int| 0 <= i < others.len() implies (#[trigger] others[i]).matches(
            doc,
        ) by {
            assert(ones[i].matches(doc));
        }
    }
}

/// A JSON query of several clauses has exactly the documents in which all clauses match, and
/// those of them that know of JSON array paths have a path in common.
pub proof fn lemma_json_matches(docsets: Seq<ScorerTree>, num_docs: u32, doc: DocId)
    ensures
        json_tree(docsets, num_docs).matches(doc) <==> {
            &&& docsets.len() > 0
            &&& boolean_query::all_match(docsets, doc)
            &&& query::paths_agree(query::clause_paths(docsets, doc))
        },
{
    let tree = json_tree(docsets, num_docs);
    let clauses = tree->JsonPaths_docsets;
    reveal_with_fuel(ScorerTree::matches, 2);
    assert forall|i: int| 0 <= i < docsets.len() implies (#[trigger] clauses[i]).matches(doc)
        == docsets[i].matches(doc) && clauses[i].json_array_paths(doc)
        == docsets[i].json_array_paths(doc) by {
        lemma_json_clause(docsets[i], doc);
    }
    assert(query::clause_paths(clauses, doc) =~= query::clause_paths(docsets, doc));
    if boolean_query::all_match(docsets, doc) {
        assert forall|i: int| 0 <= i < clauses.len() implies (#[trigger] clauses[i]).matches(
            doc,
        ) by {
            assert(docsets[i].matches(doc));
        }
    }
    if boolean_query::all_match(clauses, doc) {
        assert forall|i: int| 0 <= i < docsets.len() implies (#[trigger] docsets[i]).matches(
            doc,
        ) by {
            assert(clauses[i].matches(doc));
        }
    }
}

proof fn lemma_json_clause(tree: ScorerTree, doc: DocId)
    ensures
        json_clause(tree).matches(doc) <==> tree.matches(doc),
        json_clause(tree).json_array_paths(doc) == tree.json_array_paths(doc),
{
    reveal_with_fuel(ScorerTree::matches, 2);
}

} // verus!
