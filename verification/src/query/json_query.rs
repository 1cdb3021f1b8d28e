//! Queries on JSON fields.
use vstd::prelude::*;

use crate::docset::{DocId, TERMINATED};
use crate::json_metadata::JsonArrayPath;
use crate::json_path_writer::JsonArrayPathEntry;
use crate::query;
use crate::query::compound_scorers::Intersection;
use crate::query::json_utils;
use crate::query::json_utils::JsonPathScorer;
use crate::query::postings;
use crate::query::queries;
use crate::query::queries::{Query, QueryTerm};
use crate::query::weight;
use crate::query::weight::{
    EnableScoring, Explanation, ExplanationKind, SearchError, SegmentReader, Weight,
};
use crate::query::{Scorer, ScorerTree};

verus! {

/// A conjunction of queries on a JSON field.
///
/// Where the subqueries know of JSON array paths, only documents are kept in which all of
/// these agree on one. A subquery that knows of none, because its matches do not lie in
/// arrays, does not restrict the others.
pub struct JsonQuery {
    /// The subqueries.
    pub subqueries: Vec<Query>,
}

impl JsonQuery {
    /// A conjunction of subqueries on the same JSON field.
    pub fn new(subqueries: Vec<Query>) -> (query: JsonQuery)
        ensures
            query.subqueries@ == subqueries@,
    {
        JsonQuery { subqueries }
    }

    /// The number of subqueries.
    pub fn subqueries_len(&self) -> (len: usize)
        ensures
            len == self.subqueries@.len(),
    {
        self.subqueries.len()
    }

    /// The weight of the query: the weights of the subqueries.
    pub fn weight(&self, enable_scoring: EnableScoring) -> (weight: Result<Weight, SearchError>)
        ensures
            match weight {
                Ok(weight) => Query::Json(*self).failure() is None && Query::Json(*self).weighs(
                    enable_scoring,
                    weight,
                ),
                Err(error) => Query::Json(*self).failure() == Some(error),
            },
        decreases self, 0nat,
    {
        let mut weights: Vec<Weight> = Vec::new();
        let mut at: usize = 0;
        while at < self.subqueries.len()
            invariant
                at <= self.subqueries@.len(),
                queries::first_failure(self.subqueries@.take(at as int)) is None,
                queries::all_weigh(self.subqueries@.take(at as int), enable_scoring, weights@),
            decreases self.subqueries@.len() - at,
        {
            let ghost before = weights@;
            proof {
                let next = self.subqueries@.take(at + 1);
                assert(next.drop_last() =~= self.subqueries@.take(at as int));
                assert(next.last() == self.subqueries@[at as int]);
            }
            match self.subqueries[at].weight(enable_scoring) {
                Ok(weight) => {
                    weights.push(weight);
                    assert(weights@.drop_last() =~= before);
                },
                Err(error) => {
                    proof {
                        queries::lemma_first_failure(self.subqueries@, at as int, error);
                    }
                    return Err(error);
                },
            }
            at = at + 1;
        }
        assert(self.subqueries@.take(at as int) =~= self.subqueries@);
        Ok(Weight::Json(JsonWeight { weights }))
    }

    /// The terms that the query looks up, one subquery after the other.
    pub fn query_terms(&self) -> (terms: Vec<QueryTerm>)
        ensures
            queries::term_views(terms@) == Query::Json(*self).terms(),
    {
        let mut terms: Vec<QueryTerm> = Vec::new();
        assert(queries::term_views(terms@) =~= Seq::<(Seq<u8>, bool)>::empty());
        self.push_query_terms(&mut terms);
        assert(queries::term_views(terms@) =~= Query::Json(*self).terms());
        terms
    }

    /// Puts the terms that the query looks up behind `terms`.
    pub(crate) fn push_query_terms(&self, terms: &mut Vec<QueryTerm>)
        ensures
            queries::term_views(final(terms)@) == queries::term_views(old(terms)@) + Query::Json(
                *self,
            ).terms(),
        decreases self, 0nat,
    {
        let mut at: usize = 0;
        assert(queries::term_views(terms@) =~= queries::term_views(terms@) + queries::all_terms(
            self.subqueries@.take(0),
        ));
        while at < self.subqueries.len()
            invariant
                at <= self.subqueries@.len(),
                queries::term_views(terms@) == queries::term_views(old(terms)@)
                    + queries::all_terms(self.subqueries@.take(at as int)),
            decreases self.subqueries@.len() - at,
        {
            let ghost before = terms@;
            self.subqueries[at].push_query_terms(terms);
            proof {
                let next = self.subqueries@.take(at + 1);
                assert(next.drop_last() =~= self.subqueries@.take(at as int));
                assert(next.last() == self.subqueries@[at as int]);
                assert(queries::term_views(terms@) =~= queries::term_views(old(terms)@)
                    + queries::all_terms(next));
            }
            at = at + 1;
        }
        assert(self.subqueries@.take(at as int) =~= self.subqueries@);
    }
}

impl Clone for JsonQuery {
    fn clone(&self) -> (copy: Self)
        ensures
            Query::Json(*self).same(Query::Json(copy)),
        decreases self, 0nat,
    {
        let mut subqueries: Vec<Query> = Vec::new();
        let mut at: usize = 0;
        while at < self.subqueries.len()
            invariant
                at <= self.subqueries@.len(),
                queries::all_same(self.subqueries@.take(at as int), subqueries@),
            decreases self.subqueries@.len() - at,
        {
            let ghost before = subqueries@;
            proof {
                let next = self.subqueries@.take(at + 1);
                assert(next.drop_last() =~= self.subqueries@.take(at as int));
                assert(next.last() == self.subqueries@[at as int]);
            }
            subqueries.push(self.subqueries[at].clone());
            assert(subqueries@.drop_last() =~= before);
            at = at + 1;
        }
        assert(self.subqueries@.take(at as int) =~= self.subqueries@);
        JsonQuery { subqueries }
    }
}

/// The weight of a JSON query.
pub struct JsonWeight {
    /// The weights of the subqueries.
    pub weights: Vec<Weight>,
}

impl JsonWeight {
    /// A scorer for `reader`, on its first document. There is none for no subquery. One
    /// subquery stands for itself, several have to agree on an array element.
    pub fn scorer(&self, reader: &SegmentReader) -> (scorer: Result<Scorer, SearchError>)
        ensures
            match scorer {
                Ok(scorer) => {
                    &&& scorer.fresh()
                    &&& Weight::Json(*self).failure(*reader) is None
                    &&& Weight::Json(*self).builds(*reader, scorer.tree())
                },
                Err(error) => Weight::Json(*self).failure(*reader) == Some(error),
            },
        decreases self, 2nat,
    {
        if self.weights.len() == 0 {
            return Ok(Scorer::Empty);
        }
        if self.weights.len() == 1 {
            proof {
                let weights = self.weights@;
                assert(weights.last() == weights[0]);
                assert(weight::first_failure(weights.drop_last(), *reader) is None);
                assert(weight::first_failure(weights, *reader) == weights[0].failure(*reader));
            }
            return self.weights[0].scorer(reader);
        }
        let mut json_scorers: Vec<Scorer> = Vec::new();
        let ghost mut docsets: Seq<ScorerTree> = Seq::empty();
        let mut at: usize = 0;
        while at < self.weights.len()
            invariant
                at <= self.weights@.len(),
                docsets.len() == at == json_scorers@.len(),
                query::all_fresh(json_scorers@),
                weight::first_failure(self.weights@.take(at as int), *reader) is None,
                weight::all_build(self.weights@.take(at as int), *reader, docsets),
                query::trees(json_scorers@) == docsets.map_values(
                    |docset: ScorerTree| weight::json_clause(docset),
                ),
            decreases self.weights@.len() - at,
        {
            let ghost next = self.weights@.take(at + 1);
            assert(next.drop_last() =~= self.weights@.take(at as int));
            assert(next.last() == self.weights@[at as int]);
            match self.weights[at].scorer(reader) {
                Ok(scorer) => {
                    let ghost tree = scorer.tree();
                    let ghost before = json_scorers@;
                    json_scorers.push(convert_scorer_to_json(scorer));
                    proof {
                        let more = docsets.push(tree);
                        assert(more.drop_last() =~= docsets);
                        assert(weight::all_build(next, *reader, more));
                        assert(query::trees(json_scorers@) =~= more.map_values(
                            |docset: ScorerTree| weight::json_clause(docset),
                        )) by {
                            assert(query::trees(json_scorers@) =~= query::trees(before).push(
                                weight::json_clause(tree),
                            ));
                        }
                        docsets = more;
                    }
                },
                Err(error) => {
                    proof {
                        weight::lemma_first_failure(self.weights@, *reader, at as int, error);
                    }
                    return Err(error);
                },
            }
            at = at + 1;
        }
        assert(self.weights@.take(at as int) =~= self.weights@);
        let scorer = Scorer::json_paths(json_scorers, reader.num_docs());
        assert(weight::json_tree(docsets, reader.num_docs) == scorer.tree());
        Ok(scorer)
    }

    /// Says why `doc` matches.
    pub fn explain(&self, reader: &SegmentReader, doc: DocId) -> (explanation: Result<
        Explanation,
        SearchError,
    >)
        requires
            doc != TERMINATED,
        ensures
            match explanation {
                Ok(explanation) => Weight::Json(*self).explained_by(*reader, doc, explanation),
                Err(error) => Weight::Json(*self).refuses(*reader, doc, error),
            },
        decreases self, 0nat,
    {
        let mut scorer = match self.scorer(reader) {
            Ok(scorer) => scorer,
            Err(error) => {
                return Err(error);
            },
        };
        let ghost first = scorer;
        let found: DocId = scorer.seek(doc);
        assert(scorer.has(doc) <==> first.has(doc));
        if found != doc {
            return Err(SearchError::DoesNotMatch(doc));
        }
        let mut details: Vec<Explanation> = Vec::new();
        let mut at: usize = 0;
        while at < self.weights.len()
            invariant
                at <= self.weights@.len(),
                doc != TERMINATED,
                weight::details_explain(
                    self.weights@.take(at as int),
                    *reader,
                    doc,
                    details@,
                ),
            decreases self.weights@.len() - at,
        {
            let ghost before = details@;
            proof {
                let next = self.weights@.take(at + 1);
                assert(next.drop_last() =~= self.weights@.take(at as int));
                assert(next.last() == self.weights@[at as int]);
            }
            if let Ok(child) = self.weights[at].explain(reader, doc) {
                details.push(child);
                assert(details@.drop_last() =~= before);
            }
            at = at + 1;
        }
        assert(self.weights@.take(at as int) =~= self.weights@);
        Ok(Explanation { kind: ExplanationKind::JsonQuery, scorer: Some(scorer), details })
    }
}

/// Makes a scorer one that can be asked for paths. One that is neither a term nor a phrase
/// knows of none.
fn convert_scorer_to_json(scorer: Scorer) -> (json_scorer: Scorer)
    requires
        scorer.fresh(),
    ensures
        json_scorer.fresh(),
        json_scorer.tree() == weight::json_clause(scorer.tree()),
{
    match scorer {
        Scorer::Term(term_scorer) => Scorer::Term(term_scorer),
        Scorer::Phrase(phrase_scorer) => Scorer::Phrase(phrase_scorer),
        scorer => {
            let json_scorer = Scorer::Passthrough(
                PassthroughJsonScorer { inner: Box::new(scorer) },
            );
            proof {
                reveal_with_fuel(Scorer::tree, 2);
                reveal_with_fuel(ScorerTree::matches, 2);
                query::lemma_has(json_scorer);
            }
            json_scorer
        },
    }
}

/// A scorer that hides what another knows of JSON array paths.
pub struct PassthroughJsonScorer {
    pub(crate) inner: Box<Scorer>,
}

impl PassthroughJsonScorer {
    /// The document that the scorer stands on.
    pub(crate) fn doc(&self) -> (doc: DocId)
        requires
            Scorer::Passthrough(*self).wf(),
        ensures
            Scorer::Passthrough(*self).stands_on(doc),
        decreases Scorer::Passthrough(*self).tree(), 2nat,
    {
        proof {
            query::lemma_tree(Scorer::Passthrough(*self));
            query::lemma_has(Scorer::Passthrough(*self));
        }
        self.inner.doc()
    }

    /// Moves to the first document that is not before `target`.
    pub(crate) fn seek(&mut self, target: DocId) -> (doc: DocId)
        requires
            Scorer::Passthrough(*old(self)).wf(),
        ensures
            query::moved_to(
                Scorer::Passthrough(*old(self)),
                Scorer::Passthrough(*final(self)),
                target as int,
            ),
            Scorer::Passthrough(*final(self)).stands_on(doc),
        decreases Scorer::Passthrough(*old(self)).tree(), 2nat,
    {
        proof {
            query::lemma_tree(Scorer::Passthrough(*self));
            query::lemma_has(Scorer::Passthrough(*self));
        }
        let doc: DocId = self.inner.seek(target);
        proof {
            query::lemma_has(Scorer::Passthrough(*self));
        }
        doc
    }

    /// Moves to the next document.
    pub(crate) fn advance(&mut self) -> (doc: DocId)
        requires
            Scorer::Passthrough(*old(self)).wf(),
        ensures
            Scorer::Passthrough(*old(self)).stands_on(Scorer::Passthrough(*old(self)).current()),
            query::moved_to(
                Scorer::Passthrough(*old(self)),
                Scorer::Passthrough(*final(self)),
                Scorer::Passthrough(*old(self)).current() + 1,
            ),
            Scorer::Passthrough(*final(self)).stands_on(doc),
        decreases Scorer::Passthrough(*old(self)).tree(), 2nat,
    {
        proof {
            query::lemma_tree(Scorer::Passthrough(*self));
            query::lemma_has(Scorer::Passthrough(*self));
        }
        let doc: DocId = self.inner.advance();
        proof {
            query::lemma_has(Scorer::Passthrough(*self));
            query::lemma_stands_on(Scorer::Passthrough(*old(self)), old(self).inner.current());
        }
        doc
    }

    /// How many documents there are, roughly.
    pub(crate) fn size_hint(&self) -> (size_hint: u32)
        ensures
            size_hint == self.inner.tree().size_hint(),
        decreases Scorer::Passthrough(*self).tree(), 2nat,
    {
        proof {
            query::lemma_tree(Scorer::Passthrough(*self));
        }
        self.inner.size_hint()
    }

    /// What it costs to go through the documents.
    pub(crate) fn cost(&self) -> (cost: u64)
        ensures
            cost == self.inner.tree().cost(),
        decreases Scorer::Passthrough(*self).tree(), 2nat,
    {
        proof {
            query::lemma_tree(Scorer::Passthrough(*self));
        }
        self.inner.cost()
    }
}

/// Goes through the documents in which all clauses agree on a JSON array path.
pub struct JsonConstraintScorer {
    pub(crate) intersection: Intersection,
    pub(crate) num_terms: usize,
    pub(crate) common_indexes: Vec<JsonArrayPath>,
}

impl JsonConstraintScorer {
    /// True when the scorers are in step, whether or not they agree on a path.
    pub(crate) open spec fn in_step(self) -> bool {
        &&& Scorer::Intersection(self.intersection).wf()
        &&& self.num_terms == self.intersection.docsets@.len()
    }

    /// The paths that each scorer knows of in `doc`.
    pub(crate) open spec fn clauses(self, doc: DocId) -> Seq<Option<Seq<Seq<JsonArrayPathEntry>>>> {
        query::clause_paths(query::trees(self.intersection.docsets@), doc)
    }

    /// True when the scorers are those of `other`, and stand where those do.
    pub(crate) open spec fn same_scorers(self, other: JsonConstraintScorer) -> bool {
        &&& self.intersection.docsets@ == other.intersection.docsets@
        &&& self.intersection.num_docs == other.intersection.num_docs
        &&& self.num_terms == other.num_terms
    }

    /// What depends on the scorers alone.
    proof fn lemma_same_scorers(self, other: JsonConstraintScorer)
        requires
            self.in_step(),
            other.same_scorers(self),
        ensures
            other.in_step(),
            Scorer::Intersection(other.intersection).current() == Scorer::Intersection(
                self.intersection,
            ).current(),
            query::moved_to(
                Scorer::Intersection(self.intersection),
                Scorer::Intersection(other.intersection),
                0,
            ),
            Scorer::JsonPaths(other).tree() == Scorer::JsonPaths(self).tree(),
            forall|doc: DocId| #[trigger]
                Scorer::JsonPaths(other).has(doc) <==> Scorer::JsonPaths(self).has(doc),
    {
        query::lemma_tree(Scorer::Intersection(self.intersection));
        query::lemma_tree(Scorer::Intersection(other.intersection));
        query::lemma_tree(Scorer::JsonPaths(self));
        query::lemma_tree(Scorer::JsonPaths(other));
        query::lemma_has(Scorer::Intersection(self.intersection));
        query::lemma_has(Scorer::Intersection(other.intersection));
        query::lemma_has(Scorer::JsonPaths(self));
        query::lemma_has(Scorer::JsonPaths(other));
        self.intersection.lemma_current();
        other.intersection.lemma_current();
    }

    /// The documents that all of `json_scorers` have, and in which they agree on a path.
    pub(crate) fn new(json_scorers: Vec<Scorer>, num_docs: u32) -> (scorer: JsonConstraintScorer)
        requires
            json_scorers@.len() > 0,
            query::all_wf(json_scorers@),
        ensures
            Scorer::JsonPaths(scorer).wf(),
            Scorer::JsonPaths(scorer).tree() == (ScorerTree::JsonPaths {
                docsets: query::trees(json_scorers@),
                num_docs,
            }),
            forall|doc: DocId| #[trigger]
                Scorer::JsonPaths(scorer).has(doc) <==> query::all_have(json_scorers@, doc)
                    && query::paths_agree(
                    query::clause_paths(query::trees(json_scorers@), doc),
                ),
    {
        let num_terms: usize = json_scorers.len();
        let intersection = Intersection::new(json_scorers, num_docs);
        let mut scorer = JsonConstraintScorer {
            intersection,
            num_terms,
            common_indexes: Vec::new(),
        };
        let ghost before = scorer;
        proof {
            query::lemma_tree(Scorer::Intersection(scorer.intersection));
            query::lemma_tree(Scorer::JsonPaths(scorer));
            query::lemma_has(Scorer::JsonPaths(scorer));
            query::lemma_has(Scorer::Intersection(scorer.intersection));
            assert forall|doc: DocId| #[trigger]
                Scorer::JsonPaths(scorer).has(doc) <==> query::all_have(json_scorers@, doc)
                    && query::paths_agree(
                    query::clause_paths(query::trees(json_scorers@), doc),
                ) by {
                assert(Scorer::Intersection(scorer.intersection).has(doc) <==> query::all_have(
                    json_scorers@,
                    doc,
                ));
            }
            assert(query::trees(json_scorers@).len() == json_scorers@.len());
            assert(query::trees(scorer.intersection.docsets@).len()
                == scorer.intersection.docsets@.len());
        }
        let doc: DocId = scorer.doc();
        proof {
            query::lemma_stands_on(Scorer::Intersection(scorer.intersection), doc);
        }
        if doc != TERMINATED && !scorer.satisfies_constraint() {
            proof {
                before.lemma_same_scorers(scorer);
            }
            let _ = scorer.advance();
            proof {
                before.lemma_passed_over(scorer, doc);
            }
        } else {
            proof {
                before.lemma_same_scorers(scorer);
                scorer.lemma_settled(doc);
            }
        }
        scorer
    }

    /// Asks whether the scorers agree on a path in the document that they stand on.
    fn satisfies_constraint(&mut self) -> (satisfied: bool)
        requires
            old(self).in_step(),
        ensures
            final(self).same_scorers(*old(self)),
            satisfied == query::paths_agree(
                old(self).clauses(Scorer::Intersection(old(self).intersection).current()),
            ),
    {
        let ghost here = Scorer::Intersection(self.intersection).current();
        let ghost clauses = self.clauses(here);
        proof {
            self.intersection.lemma_current();
        }
        self.common_indexes.clear();
        let mut has_paths: bool = false;
        let mut ord: usize = 0;
        while ord < self.num_terms
            invariant
                self.same_scorers(*old(self)),
                self.num_terms == self.intersection.docsets@.len() == clauses.len(),
                ord <= self.num_terms,
                here == Scorer::Intersection(old(self).intersection).current(),
                clauses == old(self).clauses(here),
                query::all_wf(self.intersection.docsets@),
                query::all_stand_on(self.intersection.docsets@, here),
                !has_paths ==> forall|i: int|
                    0 <= i < ord ==> !query::restricts(#[trigger] clauses[i]),
                has_paths ==> exists|i: int|
                    0 <= i < ord && query::restricts(#[trigger] clauses[i]),
                has_paths ==> self.common_indexes@.len() > 0,
                has_paths ==> forall|path: Seq<JsonArrayPathEntry>| #[trigger]
                    postings::path_views(self.common_indexes@).contains(path)
                        <==> query::is_common_path(clauses.take(ord as int), path),
            decreases self.num_terms - ord,
        {
            let ghost held = postings::path_views(self.common_indexes@);
            let ghost docsets = self.intersection.docsets@;
            proof {
                query::lemma_stands_on(self.intersection.docsets@[ord as int], here);
                json_utils::lemma_common_path_step(clauses, ord as int);
            }
            let paths_opt = self.intersection.docsets[ord].json_array_paths_dyn();
            match paths_opt {
                Some(paths) => {
                    if paths.len() > 0 {
                        assert(clauses[ord as int] == Some(postings::path_views(paths@)));
                        if !has_paths {
                            populate_common_indexes(&mut self.common_indexes, paths);
                            has_paths = true;
                            proof {
                                json_utils::lemma_distinct(postings::path_views(paths@));
                                let first = postings::path_views(paths@)[0];
                                assert(postings::path_views(paths@).contains(first));
                                assert(json_utils::distinct(
                                    postings::path_views(paths@),
                                ).contains(first));
                            }
                        } else {
                            retain_common_indexes(&mut self.common_indexes, paths);
                            proof {
                                json_utils::lemma_filter(
                                    held,
                                    json_utils::among(postings::path_views(paths@)),
                                );
                            }
                            if self.common_indexes.len() == 0 {
                                proof {
                                    assert forall|path: Seq<JsonArrayPathEntry>|
                                        !#[trigger] query::is_common_path(
                                        clauses.take(ord + 1),
                                        path,
                                    ) by {
                                        if query::is_common_path(clauses.take(ord + 1), path) {
                                            assert(held.contains(path));
                                            assert(postings::path_views(
                                                self.common_indexes@,
                                            ).contains(path));
                                        }
                                    }
                                    assert(self.intersection.docsets@ =~= docsets);
                                    json_utils::lemma_no_common_path(clauses, ord + 1);
                                }
                                return false;
                            }
                        }
                    }
                },
                None => {},
            }
            assert(self.intersection.docsets@ =~= docsets);
            ord = ord + 1;
        }
        proof {
            assert(clauses.take(ord as int) =~= clauses);
            if has_paths {
                let path = postings::path_views(self.common_indexes@)[0];
                assert(postings::path_views(self.common_indexes@).contains(path));
            }
        }
        true
    }

    /// Moves forwards to a document in which the scorers agree, from `doc`, where they stand.
    fn settle(&mut self, doc: DocId) -> (settled: DocId)
        requires
            old(self).in_step(),
            Scorer::Intersection(old(self).intersection).stands_on(doc),
        ensures
            query::moved_to(Scorer::JsonPaths(*old(self)), Scorer::JsonPaths(*final(self)), 0),
            Scorer::JsonPaths(*final(self)).stands_on(settled),
        decreases query::trees(old(self).intersection.docsets@), 2nat,
    {
        let mut doc: DocId = doc;
        loop
            invariant
                self.in_step(),
                Scorer::Intersection(self.intersection).stands_on(doc),
                query::trees(self.intersection.docsets@) == query::trees(
                    old(self).intersection.docsets@,
                ),
                Scorer::JsonPaths(*self).tree() == Scorer::JsonPaths(*old(self)).tree(),
                forall|other: DocId| #[trigger]
                    Scorer::JsonPaths(*self).has(other) <==> Scorer::JsonPaths(*old(self)).has(
                        other,
                    ),
            decreases TERMINATED - doc,
        {
            proof {
                query::lemma_stands_on(Scorer::Intersection(self.intersection), doc);
            }
            let ghost asked = *self;
            if doc == TERMINATED || self.satisfies_constraint() {
                proof {
                    asked.lemma_same_scorers(*self);
                    self.lemma_settled(doc);
                }
                return doc;
            }
            proof {
                asked.lemma_same_scorers(*self);
            }
            let ghost before = *self;
            let ghost passed = doc;
            doc = self.intersection.advance();
            proof {
                before.lemma_moved(*self, passed + 1);
                before.lemma_passed_over(*self, passed);
            }
        }
    }

    /// Where the scorers agree on a path, the scorer stands where they do.
    proof fn lemma_settled(self, doc: DocId)
        requires
            self.in_step(),
            Scorer::Intersection(self.intersection).stands_on(doc),
            doc == TERMINATED || query::paths_agree(self.clauses(doc)),
        ensures
            Scorer::JsonPaths(self).wf(),
            Scorer::JsonPaths(self).stands_on(doc),
    {
        self.intersection.lemma_current();
        query::lemma_stands_on(Scorer::Intersection(self.intersection), doc);
        query::lemma_has(Scorer::Intersection(self.intersection));
        query::lemma_has(Scorer::JsonPaths(self));
        assert forall|other: DocId| #[trigger] Scorer::JsonPaths(self).has(other) implies doc
            <= other < TERMINATED by {
            assert(Scorer::Intersection(self.intersection).has(other));
        }
    }

    /// The scorer stands where its scorers do.
    pub(crate) proof fn lemma_current(self)
        requires
            Scorer::JsonPaths(self).wf(),
        ensures
            self.in_step(),
            Scorer::JsonPaths(self).stands_on(Scorer::JsonPaths(self).current()),
            Scorer::JsonPaths(self).current() == Scorer::Intersection(
                self.intersection,
            ).current(),
    {
        assert(self.in_step());
        self.intersection.lemma_current();
        let doc = Scorer::Intersection(self.intersection).current();
        self.lemma_settled(doc);
        query::lemma_stands_on(Scorer::JsonPaths(self), doc);
    }

    /// Where the scorers have moved together, so has the scorer.
    proof fn lemma_moved(self, after: JsonConstraintScorer, from: int)
        requires
            self.in_step(),
            query::moved_to(
                Scorer::Intersection(self.intersection),
                Scorer::Intersection(after.intersection),
                from,
            ),
            after.num_terms == self.num_terms,
        ensures
            after.in_step(),
            query::trees(after.intersection.docsets@) == query::trees(self.intersection.docsets@),
            Scorer::JsonPaths(after).tree() == Scorer::JsonPaths(self).tree(),
            forall|other: DocId| #[trigger]
                Scorer::JsonPaths(after).has(other) <==> Scorer::JsonPaths(self).has(other)
                    && other >= from,
    {
        query::lemma_tree(Scorer::Intersection(self.intersection));
        query::lemma_tree(Scorer::Intersection(after.intersection));
        query::lemma_tree(Scorer::JsonPaths(self));
        query::lemma_tree(Scorer::JsonPaths(after));
        query::lemma_has(Scorer::Intersection(self.intersection));
        query::lemma_has(Scorer::Intersection(after.intersection));
        query::lemma_has(Scorer::JsonPaths(self));
        query::lemma_has(Scorer::JsonPaths(after));
        assert(query::trees(after.intersection.docsets@).len() == after.intersection.docsets@.len());
        assert(query::trees(self.intersection.docsets@).len() == self.intersection.docsets@.len());
        assert forall|other: DocId| #[trigger]
            Scorer::JsonPaths(after).has(other) <==> Scorer::JsonPaths(self).has(other) && other
                >= from by {
            assert(Scorer::Intersection(after.intersection).has(other) <==> Scorer::Intersection(
                self.intersection,
            ).has(other) && other >= from);
        }
    }

    /// A document in which the scorers do not agree is not missed.
    proof fn lemma_passed_over(self, after: JsonConstraintScorer, passed: DocId)
        requires
            self.in_step(),
            Scorer::Intersection(self.intersection).stands_on(passed),
            !query::paths_agree(self.clauses(passed)),
            forall|other: DocId| #[trigger]
                Scorer::JsonPaths(after).has(other) <==> Scorer::JsonPaths(self).has(other)
                    && other >= passed + 1,
        ensures
            forall|other: DocId| #[trigger]
                Scorer::JsonPaths(after).has(other) <==> Scorer::JsonPaths(self).has(other),
    {
        query::lemma_has(Scorer::Intersection(self.intersection));
        query::lemma_has(Scorer::JsonPaths(self));
        assert forall|other: DocId| #[trigger]
            Scorer::JsonPaths(after).has(other) <==> Scorer::JsonPaths(self).has(other) by {
            if Scorer::JsonPaths(self).has(other) {
                assert(Scorer::Intersection(self.intersection).has(other));
            }
        }
    }

    /// The document that the scorer stands on.
    pub(crate) fn doc(&self) -> (doc: DocId)
        requires
            self.in_step(),
        ensures
            Scorer::Intersection(self.intersection).stands_on(doc),
            Scorer::JsonPaths(*self).wf() ==> Scorer::JsonPaths(*self).stands_on(doc),
        decreases query::trees(self.intersection.docsets@), 2nat,
    {
        let doc: DocId = self.intersection.doc();
        proof {
            query::lemma_stands_on(Scorer::Intersection(self.intersection), doc);
            if Scorer::JsonPaths(*self).wf() {
                self.lemma_current();
            }
        }
        doc
    }

    /// Moves to the first document that is not before `target`.
    pub(crate) fn seek(&mut self, target: DocId) -> (doc: DocId)
        requires
            old(self).in_step(),
        ensures
            query::moved_to(
                Scorer::JsonPaths(*old(self)),
                Scorer::JsonPaths(*final(self)),
                target as int,
            ),
            Scorer::JsonPaths(*final(self)).stands_on(doc),
        decreases query::trees(old(self).intersection.docsets@), 3nat,
    {
        let doc: DocId = self.intersection.seek(target);
        proof {
            old(self).lemma_moved(*self, target as int);
        }
        self.settle(doc)
    }

    /// Moves to the next document.
    pub(crate) fn advance(&mut self) -> (doc: DocId)
        requires
            old(self).in_step(),
        ensures
            query::moved_to(
                Scorer::JsonPaths(*old(self)),
                Scorer::JsonPaths(*final(self)),
                Scorer::Intersection(old(self).intersection).current() + 1,
            ),
            Scorer::JsonPaths(*final(self)).stands_on(doc),
        decreases query::trees(old(self).intersection.docsets@), 3nat,
    {
        let doc: DocId = self.intersection.advance();
        proof {
            old(self).lemma_moved(
                *self,
                Scorer::Intersection(old(self).intersection).current() + 1,
            );
        }
        self.settle(doc)
    }

    /// How many documents there are, roughly.
    pub(crate) fn size_hint(&self) -> (size_hint: u32)
        ensures
            size_hint == query::least_size_hint(query::trees(self.intersection.docsets@)),
        decreases query::trees(self.intersection.docsets@), 2nat,
    {
        self.intersection.size_hint()
    }

    /// What it costs to go through the documents.
    pub(crate) fn cost(&self) -> (cost: u64)
        ensures
            cost == query::first_cost(query::trees(self.intersection.docsets@)),
        decreases query::trees(self.intersection.docsets@), 2nat,
    {
        self.intersection.cost()
    }
}

/// Puts `paths` into `common`, each of them once.
fn populate_common_indexes(common: &mut Vec<JsonArrayPath>, paths: &[JsonArrayPath])
    ensures
        postings::path_views(final(common)@) == json_utils::distinct(
            postings::path_views(paths@),
        ),
{
    common.clear();
    let mut at: usize = 0;
    while at < paths.len()
        invariant
            at <= paths@.len(),
            postings::path_views(common@) == json_utils::distinct(
                postings::path_views(paths@.take(at as int)),
            ),
        decreases paths@.len() - at,
    {
        let ghost next = postings::path_views(paths@.take(at + 1));
        assert(next.drop_last() =~= postings::path_views(paths@.take(at as int)));
        assert(next.last() == paths@[at as int]@);
        let path = &paths[at];
        if !contains_path(common.as_slice(), path) {
            let ghost before = common@;
            common.push(path.clone());
            assert(postings::path_views(common@) =~= postings::path_views(before).push(path@));
        }
        at = at + 1;
    }
    assert(paths@.take(at as int) == paths@);
}

/// Takes out of `common` what is not among `paths`.
fn retain_common_indexes(common: &mut Vec<JsonArrayPath>, paths: &[JsonArrayPath])
    ensures
        postings::path_views(final(common)@) == postings::path_views(old(common)@).filter(
            json_utils::among(postings::path_views(paths@)),
        ),
{
    let ghost kept = json_utils::among(postings::path_views(paths@));
    let mut retained: Vec<JsonArrayPath> = Vec::new();
    let mut at: usize = 0;
    while at < common.len()
        invariant
            at <= common@.len(),
            common@ == old(common)@,
            kept == json_utils::among(postings::path_views(paths@)),
            postings::path_views(retained@) == postings::path_views(
                common@.take(at as int),
            ).filter(kept),
        decreases common@.len() - at,
    {
        let ghost next = postings::path_views(common@.take(at + 1));
        assert(next.drop_last() =~= postings::path_views(common@.take(at as int)));
        assert(next.last() == common@[at as int]@);
        reveal(Seq::filter);
        let candidate = &common[at];
        if contains_path(paths, candidate) {
            let ghost before = retained@;
            retained.push(candidate.clone());
            assert(postings::path_views(retained@) =~= postings::path_views(before).push(
                candidate@,
            ));
        }
        at = at + 1;
    }
    assert(common@.take(at as int) == common@);
    *common = retained;
}

/// Asks whether `path` is one of `paths`.
fn contains_path(paths: &[JsonArrayPath], path: &JsonArrayPath) -> (found: bool)
    ensures
        found == postings::path_views(paths@).contains(path@),
{
    let mut at: usize = 0;
    while at < paths.len()
        invariant
            at <= paths@.len(),
            forall|i: int| 0 <= i < at ==> paths@[i]@ != path@,
        decreases paths@.len() - at,
    {
        if same_path(&paths[at], path) {
            assert(postings::path_views(paths@)[at as int] == path@);
            return true;
        }
        at = at + 1;
    }
    false
}

/// Asks whether two paths go through the same array elements.
fn same_path(one: &JsonArrayPath, other: &JsonArrayPath) -> (same: bool)
    ensures
        same == (one@ == other@),
{
    if one.len() != other.len() {
        return false;
    }
    let mut at: usize = 0;
    while at < one.len()
        invariant
            at <= one@.len(),
            one@.len() == other@.len(),
            forall|i: int| 0 <= i < at ==> one@[i] == other@[i],
        decreases one@.len() - at,
    {
        if one[at] != other[at] {
            return false;
        }
        at = at + 1;
    }
    assert(one@ =~= other@);
    true
}

} // verus!
