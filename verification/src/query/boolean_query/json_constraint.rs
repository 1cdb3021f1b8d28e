//! Agreement of the clauses of a JSON field on a path id.
use vstd::prelude::*;

use crate::docset::{DocId, TERMINATED};
use crate::json_metadata;
use crate::json_metadata::JsonArrayPath;
use crate::json_path_writer::JsonArrayPathEntry;
use crate::query;
use crate::query::compound_scorers::Intersection;
use crate::query::json_utils;
use crate::query::json_utils::JsonPathScorer;
use crate::query::postings;
use crate::query::{Scorer, ScorerTree};

verus! {

/// Goes through the documents in which the clauses of a JSON field agree on a path id.
pub struct JsonConstraintScorer {
    pub(crate) intersection: Intersection,
    pub(crate) num_terms: usize,
    pub(crate) common_indexes: Vec<u32>,
}

impl JsonConstraintScorer {
    /// True when the scorers are in step, whether or not they agree on a path id.
    pub(crate) open spec fn in_step(self) -> bool {
        &&& Scorer::Intersection(self.intersection).wf()
        &&& self.num_terms == self.intersection.docsets@.len()
    }

    /// The path ids that each scorer knows of in `doc`.
    pub(crate) open spec fn clauses(self, doc: DocId) -> Seq<Option<Seq<u32>>> {
        query::clause_path_indexes(query::trees(self.intersection.docsets@), doc)
    }

    /// True when the scorers are those of `other`, and stand where those do.
    pub(crate) open spec fn same_scorers(self, other: JsonConstraintScorer) -> bool {
        &&& self.intersection.docsets@ == other.intersection.docsets@
        &&& self.intersection.num_docs == other.intersection.num_docs
        &&& self.num_terms == other.num_terms
    }

    /// What depends on the scorers alone.
    proof fn lemma_same_scorers(self, other: JsonConstraintScorer)
        requires
            self.in_step(),
            other.same_scorers(self),
        ensures
            other.in_step(),
            Scorer::Intersection(other.intersection).current() == Scorer::Intersection(
                self.intersection,
            ).current(),
            query::moved_to(
                Scorer::Intersection(self.intersection),
                Scorer::Intersection(other.intersection),
                0,
            ),
            Scorer::JsonPathIndexes(other).tree() == Scorer::JsonPathIndexes(self).tree(),
            forall|doc: DocId| #[trigger]
                Scorer::JsonPathIndexes(other).has(doc) <==> Scorer::JsonPathIndexes(self).has(doc),
    {
        query::lemma_tree(Scorer::Intersection(self.intersection));
        query::lemma_tree(Scorer::Intersection(other.intersection));
        query::lemma_tree(Scorer::JsonPathIndexes(self));
        query::lemma_tree(Scorer::JsonPathIndexes(other));
        query::lemma_has(Scorer::Intersection(self.intersection));
        query::lemma_has(Scorer::Intersection(other.intersection));
        query::lemma_has(Scorer::JsonPathIndexes(self));
        query::lemma_has(Scorer::JsonPathIndexes(other));
        self.intersection.lemma_current();
        other.intersection.lemma_current();
    }

    /// The documents that all of `json_scorers` have, and in which they agree on a path id.
    pub(crate) fn new(json_scorers: Vec<Scorer>, num_docs: u32) -> (scorer: JsonConstraintScorer)
        requires
            json_scorers@.len() > 0,
            query::all_wf(json_scorers@),
        ensures
            Scorer::JsonPathIndexes(scorer).wf(),
            Scorer::JsonPathIndexes(scorer).tree() == (ScorerTree::JsonPathIndexes {
                docsets: query::trees(json_scorers@),
                num_docs,
            }),
            forall|doc: DocId| #[trigger]
                Scorer::JsonPathIndexes(scorer).has(doc) <==> query::all_have(json_scorers@, doc)
                    && query::paths_agree(
                    query::clause_path_indexes(query::trees(json_scorers@), doc),
                ),
    {
        let num_terms: usize = json_scorers.len();
        let intersection = Intersection::new(json_scorers, num_docs);
        let mut scorer = JsonConstraintScorer {
            intersection,
            num_terms,
            common_indexes: Vec::new(),
        };
        let ghost before = scorer;
        proof {
            query::lemma_tree(Scorer::Intersection(scorer.intersection));
            query::lemma_tree(Scorer::JsonPathIndexes(scorer));
            query::lemma_has(Scorer::JsonPathIndexes(scorer));
            query::lemma_has(Scorer::Intersection(scorer.intersection));
            assert forall|doc: DocId| #[trigger]
                Scorer::JsonPathIndexes(scorer).has(doc) <==> query::all_have(json_scorers@, doc)
                    && query::paths_agree(
                    query::clause_path_indexes(query::trees(json_scorers@), doc),
                ) by {
                assert(Scorer::Intersection(scorer.intersection).has(doc) <==> query::all_have(
                    json_scorers@,
                    doc,
                ));
            }
            assert(query::trees(json_scorers@).len() == json_scorers@.len());
            assert(query::trees(scorer.intersection.docsets@).len()
                == scorer.intersection.docsets@.len());
        }
        let doc: DocId = scorer.doc();
        proof {
            query::lemma_stands_on(Scorer::Intersection(scorer.intersection), doc);
        }
        if doc != TERMINATED && !scorer.satisfies_constraint() {
            proof {
                before.lemma_same_scorers(scorer);
            }
            let _ = scorer.advance();
            proof {
                before.lemma_passed_over(scorer, doc);
            }
        } else {
            proof {
                before.lemma_same_scorers(scorer);
                scorer.lemma_settled(doc);
            }
        }
        scorer
    }

    /// Asks whether the scorers agree on a path id in the document that they stand on.
    fn satisfies_constraint(&mut self) -> (satisfied: bool)
        requires
            old(self).in_step(),
        ensures
            final(self).same_scorers(*old(self)),
            satisfied == query::paths_agree(
                old(self).clauses(Scorer::Intersection(old(self).intersection).current()),
            ),
    {
        let ghost here = Scorer::Intersection(self.intersection).current();
        let ghost clauses = self.clauses(here);
        proof {
            self.intersection.lemma_current();
        }
        self.common_indexes.clear();
        let mut initialized: bool = false;
        let mut ord: usize = 0;
        while ord < self.num_terms
            invariant
                self.same_scorers(*old(self)),
                self.num_terms == self.intersection.docsets@.len() == clauses.len(),
                ord <= self.num_terms,
                here == Scorer::Intersection(old(self).intersection).current(),
                clauses == old(self).clauses(here),
                query::all_wf(self.intersection.docsets@),
                query::all_stand_on(self.intersection.docsets@, here),
                !initialized ==> forall|i: int|
                    0 <= i < ord ==> !query::restricts(#[trigger] clauses[i]),
                initialized ==> exists|i: int|
                    0 <= i < ord && query::restricts(#[trigger] clauses[i]),
                initialized ==> self.common_indexes@.len() > 0,
                initialized ==> forall|index: u32| #[trigger]
                    self.common_indexes@.contains(index) <==> query::is_common_path(
                        clauses.take(ord as int),
                        index,
                    ),
            decreases self.num_terms - ord,
        {
            let ghost held = self.common_indexes@;
            let ghost docsets = self.intersection.docsets@;
            proof {
                query::lemma_stands_on(self.intersection.docsets@[ord as int], here);
                json_utils::lemma_common_path_step(clauses, ord as int);
            }
            // A clause that knows of no path id is passed over.
            if let Some(indexes) = self.intersection.docsets[ord].json_array_path_indexes_dyn() {
                if indexes.len() > 0 {
                    assert(clauses[ord as int] == Some(indexes@));
                    if !initialized {
                        populate_common_indexes(&mut self.common_indexes, indexes);
                        initialized = true;
                        proof {
                            json_utils::lemma_distinct(indexes@);
                            assert(indexes@.contains(indexes@[0]));
                            assert(json_utils::distinct(indexes@).contains(indexes@[0]));
                        }
                    } else {
                        retain_common_indexes(&mut self.common_indexes, indexes);
                        proof {
                            json_utils::lemma_filter(held, json_utils::among(indexes@));
                        }
                        if self.common_indexes.len() == 0 {
                            proof {
                                assert forall|index: u32| !#[trigger] query::is_common_path(
                                    clauses.take(ord + 1),
                                    index,
                                ) by {
                                    if query::is_common_path(clauses.take(ord + 1), index) {
                                        assert(held.contains(index));
                                        assert(self.common_indexes@.contains(index));
                                    }
                                }
                                assert(self.intersection.docsets@ =~= docsets);
                                json_utils::lemma_no_common_path(clauses, ord + 1);
                            }
                            return false;
                        }
                    }
                }
            }
            assert(self.intersection.docsets@ =~= docsets);
            ord = ord + 1;
        }
        proof {
            assert(clauses.take(ord as int) =~= clauses);
            if initialized {
                assert(self.common_indexes@.contains(self.common_indexes@[0]));
            }
        }
        true
    }

    /// Moves forwards to a document in which the scorers agree, from `doc`, where they stand.
    fn settle(&mut self, doc: DocId) -> (settled: DocId)
        requires
            old(self).in_step(),
            Scorer::Intersection(old(self).intersection).stands_on(doc),
        ensures
            query::moved_to(Scorer::JsonPathIndexes(*old(self)), Scorer::JsonPathIndexes(*final(self)), 0),
            Scorer::JsonPathIndexes(*final(self)).stands_on(settled),
        decreases query::trees(old(self).intersection.docsets@), 2nat,
    {
        let mut doc: DocId = doc;
        loop
            invariant
                self.in_step(),
                Scorer::Intersection(self.intersection).stands_on(doc),
                query::trees(self.intersection.docsets@) == query::trees(
                    old(self).intersection.docsets@,
                ),
                Scorer::JsonPathIndexes(*self).tree() == Scorer::JsonPathIndexes(*old(self)).tree(),
                forall|other: DocId| #[trigger]
                    Scorer::JsonPathIndexes(*self).has(other) <==> Scorer::JsonPathIndexes(*old(self)).has(
                        other,
                    ),
            decreases TERMINATED - doc,
        {
            proof {
                query::lemma_stands_on(Scorer::Intersection(self.intersection), doc);
            }
            let ghost asked = *self;
            if doc == TERMINATED || self.satisfies_constraint() {
                proof {
                    asked.lemma_same_scorers(*self);
                    self.lemma_settled(doc);
                }
                return doc;
            }
            proof {
                asked.lemma_same_scorers(*self);
            }
            let ghost before = *self;
            let ghost passed = doc;
            doc = self.intersection.advance();
            proof {
                before.lemma_moved(*self, passed + 1);
                before.lemma_passed_over(*self, passed);
            }
        }
    }

    /// Where the scorers agree on a path, the scorer stands where they do.
    proof fn lemma_settled(self, doc: DocId)
        requires
            self.in_step(),
            Scorer::Intersection(self.intersection).stands_on(doc),
            doc == TERMINATED || query::paths_agree(self.clauses(doc)),
        ensures
            Scorer::JsonPathIndexes(self).wf(),
            Scorer::JsonPathIndexes(self).stands_on(doc),
    {
        self.intersection.lemma_current();
        query::lemma_stands_on(Scorer::Intersection(self.intersection), doc);
        query::lemma_has(Scorer::Intersection(self.intersection));
        query::lemma_has(Scorer::JsonPathIndexes(self));
        assert forall|other: DocId| #[trigger] Scorer::JsonPathIndexes(self).has(other) implies doc
            <= other < TERMINATED by {
            assert(Scorer::Intersection(self.intersection).has(other));
        }
    }

    /// The scorer stands where its scorers do.
    pub(crate) proof fn lemma_current(self)
        requires
            Scorer::JsonPathIndexes(self).wf(),
        ensures
            self.in_step(),
            Scorer::JsonPathIndexes(self).stands_on(Scorer::JsonPathIndexes(self).current()),
            Scorer::JsonPathIndexes(self).current() == Scorer::Intersection(
                self.intersection,
            ).current(),
    {
        assert(self.in_step());
        self.intersection.lemma_current();
        let doc = Scorer::Intersection(self.intersection).current();
        self.lemma_settled(doc);
        query::lemma_stands_on(Scorer::JsonPathIndexes(self), doc);
    }

    /// Where the scorers have moved together, so has the scorer.
    proof fn lemma_moved(self, after: JsonConstraintScorer, from: int)
        requires
            self.in_step(),
            query::moved_to(
                Scorer::Intersection(self.intersection),
                Scorer::Intersection(after.intersection),
                from,
            ),
            after.num_terms == self.num_terms,
        ensures
            after.in_step(),
            query::trees(after.intersection.docsets@) == query::trees(self.intersection.docsets@),
            Scorer::JsonPathIndexes(after).tree() == Scorer::JsonPathIndexes(self).tree(),
            forall|other: DocId| #[trigger]
                Scorer::JsonPathIndexes(after).has(other) <==> Scorer::JsonPathIndexes(self).has(other)
                    && other >= from,
    {
        query::lemma_tree(Scorer::Intersection(self.intersection));
        query::lemma_tree(Scorer::Intersection(after.intersection));
        query::lemma_tree(Scorer::JsonPathIndexes(self));
        query::lemma_tree(Scorer::JsonPathIndexes(after));
        query::lemma_has(Scorer::Intersection(self.intersection));
        query::lemma_has(Scorer::Intersection(after.intersection));
        query::lemma_has(Scorer::JsonPathIndexes(self));
        query::lemma_has(Scorer::JsonPathIndexes(after));
        assert(query::trees(after.intersection.docsets@).len() == after.intersection.docsets@.len());
        assert(query::trees(self.intersection.docsets@).len() == self.intersection.docsets@.len());
        assert forall|other: DocId| #[trigger]
            Scorer::JsonPathIndexes(after).has(other) <==> Scorer::JsonPathIndexes(self).has(other) && other
                >= from by {
            assert(Scorer::Intersection(after.intersection).has(other) <==> Scorer::Intersection(
                self.intersection,
            ).has(other) && other >= from);
        }
    }

    /// A document in which the scorers do not agree is not missed.
    proof fn lemma_passed_over(self, after: JsonConstraintScorer, passed: DocId)
        requires
            self.in_step(),
            Scorer::Intersection(self.intersection).stands_on(passed),
            !query::paths_agree(self.clauses(passed)),
            forall|other: DocId| #[trigger]
                Scorer::JsonPathIndexes(after).has(other) <==> Scorer::JsonPathIndexes(self).has(other)
                    && other >= passed + 1,
        ensures
            forall|other: DocId| #[trigger]
                Scorer::JsonPathIndexes(after).has(other) <==> Scorer::JsonPathIndexes(self).has(other),
    {
        query::lemma_has(Scorer::Intersection(self.intersection));
        query::lemma_has(Scorer::JsonPathIndexes(self));
        assert forall|other: DocId| #[trigger]
            Scorer::JsonPathIndexes(after).has(other) <==> Scorer::JsonPathIndexes(self).has(other) by {
            if Scorer::JsonPathIndexes(self).has(other) {
                assert(Scorer::Intersection(self.intersection).has(other));
            }
        }
    }

    /// The document that the scorer stands on.
    pub(crate) fn doc(&self) -> (doc: DocId)
        requires
            self.in_step(),
        ensures
            Scorer::Intersection(self.intersection).stands_on(doc),
            Scorer::JsonPathIndexes(*self).wf() ==> Scorer::JsonPathIndexes(*self).stands_on(doc),
        decreases query::trees(self.intersection.docsets@), 2nat,
    {
        let doc: DocId = self.intersection.doc();
        proof {
            query::lemma_stands_on(Scorer::Intersection(self.intersection), doc);
            if Scorer::JsonPathIndexes(*self).wf() {
                self.lemma_current();
            }
        }
        doc
    }

    /// Moves to the first document that is not before `target`.
    pub(crate) fn seek(&mut self, target: DocId) -> (doc: DocId)
        requires
            old(self).in_step(),
        ensures
            query::moved_to(
                Scorer::JsonPathIndexes(*old(self)),
                Scorer::JsonPathIndexes(*final(self)),
                target as int,
            ),
            Scorer::JsonPathIndexes(*final(self)).stands_on(doc),
        decreases query::trees(old(self).intersection.docsets@), 3nat,
    {
        let doc: DocId = self.intersection.seek(target);
        proof {
            old(self).lemma_moved(*self, target as int);
        }
        self.settle(doc)
    }

    /// Moves to the next document.
    pub(crate) fn advance(&mut self) -> (doc: DocId)
        requires
            old(self).in_step(),
        ensures
            query::moved_to(
                Scorer::JsonPathIndexes(*old(self)),
                Scorer::JsonPathIndexes(*final(self)),
                Scorer::Intersection(old(self).intersection).current() + 1,
            ),
            Scorer::JsonPathIndexes(*final(self)).stands_on(doc),
        decreases query::trees(old(self).intersection.docsets@), 3nat,
    {
        let doc: DocId = self.intersection.advance();
        proof {
            old(self).lemma_moved(
                *self,
                Scorer::Intersection(old(self).intersection).current() + 1,
            );
        }
        self.settle(doc)
    }

    /// How many documents there are, roughly.
    pub(crate) fn size_hint(&self) -> (size_hint: u32)
        ensures
            size_hint == query::least_size_hint(query::trees(self.intersection.docsets@)),
        decreases query::trees(self.intersection.docsets@), 2nat,
    {
        self.intersection.size_hint()
    }

    /// What it costs to go through the documents.
    pub(crate) fn cost(&self) -> (cost: u64)
        ensures
            cost == query::first_cost(query::trees(self.intersection.docsets@)),
        decreases query::trees(self.intersection.docsets@), 2nat,
    {
        self.intersection.cost()
    }
}

/// Puts `indexes` into `common`, each of them once.
fn populate_common_indexes(common: &mut Vec<u32>, indexes: &[u32])
    ensures
        final(common)@ == json_utils::distinct(indexes@),
{
    common.clear();
    let mut at: usize = 0;
    while at < indexes.len()
        invariant
            at <= indexes@.len(),
            common@ == json_utils::distinct(indexes@.take(at as int)),
        decreases indexes@.len() - at,
    {
        let ghost next = indexes@.take(at + 1);
        assert(next.drop_last() =~= indexes@.take(at as int));
        let index: u32 = indexes[at];
        if !contains_index(common.as_slice(), index) {
            common.push(index);
        }
        at = at + 1;
    }
    assert(indexes@.take(at as int) == indexes@);
}

/// Takes out of `common` what is not among `indexes`.
fn retain_common_indexes(common: &mut Vec<u32>, indexes: &[u32])
    ensures
        final(common)@ == old(common)@.filter(json_utils::among(indexes@)),
{
    let mut retained: Vec<u32> = Vec::new();
    let mut at: usize = 0;
    while at < common.len()
        invariant
            at <= common@.len(),
            common@ == old(common)@,
            retained@ == common@.take(at as int).filter(json_utils::among(indexes@)),
        decreases common@.len() - at,
    {
        let ghost next = common@.take(at + 1);
        assert(next.drop_last() =~= common@.take(at as int));
        reveal(Seq::filter);
        let candidate: u32 = common[at];
        if contains_index(indexes, candidate) {
            retained.push(candidate);
        }
        at = at + 1;
    }
    assert(common@.take(at as int) == common@);
    *common = retained;
}

/// Asks whether `index` is one of `indexes`.
fn contains_index(indexes: &[u32], index: u32) -> (found: bool)
    ensures
        found == indexes@.contains(index),
{
    let mut at: usize = 0;
    while at < indexes.len()
        invariant
            at <= indexes@.len(),
            forall|i: int| 0 <= i < at ==> indexes@[i] != index,
        decreases indexes@.len() - at,
    {
        if indexes[at] == index {
            return true;
        }
        at = at + 1;
    }
    false
}

/// True when each of `ids` is one for which `table` has an array path.
pub open spec fn in_table(table: Seq<JsonArrayPath>, ids: Seq<u32>) -> bool {
    forall|i: int| 0 <= i < ids.len() ==> 0 < (#[trigger] ids[i]) < table.len()
}

/// The paths that the path ids of each clause stand for.
pub open spec fn clauses_resolved(
    table: Seq<JsonArrayPath>,
    clauses: Seq<Option<Seq<u32>>>,
) -> Seq<Option<Seq<Seq<JsonArrayPathEntry>>>> {
    clauses.map_values(
        |clause: Option<Seq<u32>>|
            match clause {
                Some(ids) => Some(
                    postings::path_views(json_metadata::resolve_paths(table, ids)),
                ),
                None => None,
            },
    )
}

/// The paths that `ids` stand for.
proof fn lemma_resolved(table: Seq<JsonArrayPath>, ids: Seq<u32>)
    requires
        in_table(table, ids),
    ensures
        json_metadata::resolve_paths(table, ids) == Seq::new(
            ids.len(),
            |i: int| table[ids[i] as int],
        ),
    decreases ids.len(),
{
    if ids.len() > 0 {
        lemma_resolved(table, ids.drop_last());
        assert(0 < ids[ids.len() - 1] < table.len());
    }
    assert(json_metadata::resolve_paths(table, ids) =~= Seq::new(
        ids.len(),
        |i: int| table[ids[i] as int],
    ));
}

/// Where each path has one id, to agree on a path id is to agree on a path. Clauses that know
/// of no path id restrict neither.
pub proof fn lemma_ids_stand_for_paths(
    table: Seq<JsonArrayPath>,
    clauses: Seq<Option<Seq<u32>>>,
)
    requires
        postings::path_views(table).no_duplicates(),
        forall|i: int|
            0 <= i < clauses.len() && (#[trigger] clauses[i]) is Some ==> in_table(
                table,
                clauses[i]->0,
            ),
    ensures
        query::paths_agree(clauses) <==> query::paths_agree(clauses_resolved(table, clauses)),
{
    let resolved = clauses_resolved(table, clauses);
    assert forall|i: int| 0 <= i < clauses.len() implies query::restricts(#[trigger] resolved[i])
        == query::restricts(clauses[i]) && (query::restricts(clauses[i]) ==> resolved[i]->0
        == Seq::new(clauses[i]->0.len(), |j: int| table[clauses[i]->0[j] as int]@)) by {
        if clauses[i] is Some {
            lemma_resolved(table, clauses[i]->0);
            assert(resolved[i]->0 =~= Seq::new(
                clauses[i]->0.len(),
                |j: int| table[clauses[i]->0[j] as int]@,
            ));
        }
    }
    if exists|i: int| 0 <= i < clauses.len() && query::restricts(#[trigger] clauses[i]) {
        let first = choose|i: int| 0 <= i < clauses.len() && query::restricts(
            #[trigger] clauses[i],
        );
        assert(query::restricts(resolved[first]));
        if query::paths_agree(clauses) {
            let index = choose|index: u32| query::is_common_path(clauses, index);
            let path = table[index as int]@;
            assert forall|i: int|
                0 <= i < resolved.len() && #[trigger] query::restricts(
                    resolved[i],
                ) implies resolved[i]->0.contains(path) by {
                let ids = clauses[i]->0;
                assert(query::restricts(clauses[i]));
                assert(ids.contains(index));
                let j = choose|j: int| 0 <= j < ids.len() && ids[j] == index;
                assert(resolved[i]->0[j] == path);
            }
            assert(query::is_common_path(resolved, path));
        }
        if query::paths_agree(resolved) {
            let path = choose|path: Seq<JsonArrayPathEntry>| query::is_common_path(resolved, path);
            let ids = clauses[first]->0;
            assert(resolved[first]->0.contains(path));
            let at = choose|j: int| 0 <= j < ids.len() && resolved[first]->0[j] == path;
            assert(0 < ids[at] < table.len());
            let index = ids[at];
            assert forall|i: int|
                0 <= i < clauses.len() && #[trigger] query::restricts(
                    clauses[i],
                ) implies clauses[i]->0.contains(index) by {
                let ids = clauses[i]->0;
                assert(query::restricts(resolved[i]));
                assert(resolved[i]->0.contains(path));
                let j = choose|j: int| 0 <= j < ids.len() && resolved[i]->0[j] == path;
                assert(0 < ids[j] < table.len());
                assert(postings::path_views(table)[ids[j] as int] == path);
                assert(postings::path_views(table)[index as int] == path);
                assert(ids[j] == index);
            }
            assert(query::is_common_path(clauses, index));
        }
    } else {
        assert forall|i: int| 0 <= i < clauses.len() implies !#[trigger] query::restricts(
            clauses[i],
        ) by {}
        assert forall|i: int| 0 <= i < resolved.len() implies !#[trigger] query::restricts(
            resolved[i],
        ) by {
            assert(!query::restricts(clauses[i]));
        }
    }
}

} // verus!
