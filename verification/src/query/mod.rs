//! Scorers: what a search goes through document by document.
//!
//! A scorer stands on a document, moves forwards only, and is done when it stands on
//! `TERMINATED`. What it goes through is described by its tree, which no movement changes;
//! where it stands is described by the documents that it still has.
use vstd::prelude::*;

use crate::docset::{DocId, TERMINATED};
use crate::json_path_writer::JsonArrayPathEntry;
use crate::query::boolean_query::json_constraint::JsonConstraintScorer as JsonPathIndexConstraintScorer;
use crate::query::compound_scorers::{
    DisjunctionScorer, ExcludeScorer, Intersection, RequiredOptionalScorer, UnionScorer,
};
use crate::query::json_query::{JsonConstraintScorer, PassthroughJsonScorer};
use crate::query::leaf_scorers::{
    FreqReadingOption, JsonConstraintKey, OtherScorer, PhraseScorer, TermScorer,
};
use crate::query::postings::Postings;

pub mod boolean_query;
pub mod compound_scorers;
pub mod documents;
pub mod explanations;
pub mod json_query;
pub mod json_utils;
pub mod leaf_scorers;
pub mod postings;
pub mod queries;
pub mod score;
pub mod scorer;
pub mod scorer_list;
pub mod trees;
pub mod weight;

verus! {

/// How the scores of several clauses become one. The scores themselves are computed by the
/// caller, who knows a combiner by its handle.
#[derive(Clone, Copy, Debug, PartialEq, Eq, Structural)]
pub enum ScoreCombiner {
    /// No score is wanted.
    DoNothing,
    /// The combiner that the caller knows by this handle.
    Handle(u32),
}

/// Goes through documents in increasing order.
pub enum Scorer {
    /// No document.
    Empty,
    /// The documents of a term.
    Term(TermScorer),
    /// The documents of a phrase.
    Phrase(PhraseScorer),
    /// Documents that come from elsewhere.
    Other(OtherScorer),
    /// The documents of another scorer, without its JSON array paths.
    Passthrough(PassthroughJsonScorer),
    /// The documents that any of several scorers has.
    Union(UnionScorer),
    /// The documents that at least so many of several scorers have.
    Disjunction(DisjunctionScorer),
    /// The documents that all of several scorers have.
    Intersection(Intersection),
    /// The documents of one scorer, whose score another may add to.
    RequiredOptional(RequiredOptionalScorer),
    /// The documents of one scorer that another does not have.
    Exclude(ExcludeScorer),
    /// The documents in which several scorers agree on a JSON array path.
    JsonPaths(JsonConstraintScorer),
    /// The documents in which several scorers agree on a JSON array path id.
    JsonPathIndexes(JsonPathIndexConstraintScorer),
}

/// What a leaf reads.
pub struct Leaf {
    /// The handle by which the caller finds again what a score needs.
    pub handle: u32,
    /// The documents.
    pub postings: Postings,
}

/// What a scorer goes through.
pub enum ScorerTree {
    Empty,
    Term {
        leaf: Leaf,
        json_constraint_key: Option<JsonConstraintKey>,
        freq_reading_option: FreqReadingOption,
    },
    Phrase { leaf: Leaf, json_constraint_key: Option<JsonConstraintKey> },
    Other { leaf: Leaf },
    Passthrough { inner: Box<ScorerTree> },
    Union { docsets: Seq<ScorerTree>, score_combiner: ScoreCombiner, num_docs: u32 },
    Disjunction {
        docsets: Seq<ScorerTree>,
        score_combiner: ScoreCombiner,
        minimum_match_required: usize,
    },
    Intersection { docsets: Seq<ScorerTree>, num_docs: u32 },
    RequiredOptional {
        required: Box<ScorerTree>,
        optional: Box<ScorerTree>,
        score_combiner: ScoreCombiner,
    },
    Exclude { underlying: Box<ScorerTree>, excluding: Box<ScorerTree> },
    JsonPaths { docsets: Seq<ScorerTree>, num_docs: u32 },
    JsonPathIndexes { docsets: Seq<ScorerTree>, num_docs: u32 },
}

/// True when a clause restricts the paths: it knows of at least one.
pub open spec fn restricts<T>(paths: Option<Seq<T>>) -> bool {
    paths is Some && paths->0.len() > 0
}

/// True when `path` is among the paths of every clause that restricts them.
pub open spec fn is_common_path<T>(clauses: Seq<Option<Seq<T>>>, path: T) -> bool {
    forall|i: int|
        0 <= i < clauses.len() && #[trigger] restricts(clauses[i]) ==> clauses[i]->0.contains(path)
}

/// True when the clauses agree: none of them restricts the paths, or all that do have a path
/// in common.
pub open spec fn paths_agree<T>(clauses: Seq<Option<Seq<T>>>) -> bool {
    ||| forall|i: int| 0 <= i < clauses.len() ==> !#[trigger] restricts(clauses[i])
    ||| exists|path: T| is_common_path(clauses, path)
}

impl ScorerTree {
    /// The paths that a clause knows of in `doc`.
    pub open spec fn json_array_paths(self, doc: DocId) -> Option<
        Seq<Seq<JsonArrayPathEntry>>,
    > {
        match self {
            ScorerTree::Term { leaf, .. } => leaf.postings.paths_in(doc),
            ScorerTree::Phrase { leaf, .. } => leaf.postings.paths_in(doc),
            _ => None,
        }
    }

    /// The path ids that a clause knows of in `doc`.
    pub open spec fn json_array_path_indexes(self, doc: DocId) -> Option<Seq<u32>> {
        match self {
            ScorerTree::Term { leaf, .. } => leaf.postings.path_indexes_in(doc),
            ScorerTree::Phrase { leaf, .. } => leaf.postings.path_indexes_in(doc),
            _ => None,
        }
    }

    /// True when `doc` is one of the documents.
    pub open spec fn matches(self, doc: DocId) -> bool
        decreases self,
    {
        match self {
            ScorerTree::Empty => false,
            ScorerTree::Term { leaf, .. } => leaf.postings.docs.contains(doc),
            ScorerTree::Phrase { leaf, .. } => leaf.postings.docs.contains(doc),
            ScorerTree::Other { leaf } => leaf.postings.docs.contains(doc),
            ScorerTree::Passthrough { inner } => inner.matches(doc),
            ScorerTree::Union { docsets, .. } => num_matching(docsets, doc) > 0,
            ScorerTree::Disjunction { docsets, minimum_match_required, .. } => num_matching(
                docsets,
                doc,
            ) >= minimum_match_required,
            ScorerTree::Intersection { docsets, .. } => {
                &&& docsets.len() > 0
                &&& forall|i: int| 0 <= i < docsets.len() ==> (#[trigger] docsets[i]).matches(doc)
            },
            ScorerTree::RequiredOptional { required, .. } => required.matches(doc),
            ScorerTree::Exclude { underlying, excluding } => underlying.matches(doc)
                && !excluding.matches(doc),
            ScorerTree::JsonPaths { docsets, .. } => {
                &&& docsets.len() > 0
                &&& forall|i: int| 0 <= i < docsets.len() ==> (#[trigger] docsets[i]).matches(doc)
                &&& paths_agree(clause_paths(docsets, doc))
            },
            ScorerTree::JsonPathIndexes { docsets, .. } => {
                &&& docsets.len() > 0
                &&& forall|i: int| 0 <= i < docsets.len() ==> (#[trigger] docsets[i]).matches(doc)
                &&& paths_agree(clause_path_indexes(docsets, doc))
            },
        }
    }
}

impl ScorerTree {
    /// How many documents there are, roughly.
    pub open spec fn size_hint(self) -> u32
        decreases self,
    {
        match self {
            ScorerTree::Empty => 0,
            ScorerTree::Term { leaf, .. } => at_most_u32(leaf.postings.docs.len()),
            ScorerTree::Phrase { leaf, .. } => at_most_u32(leaf.postings.docs.len()),
            ScorerTree::Other { leaf } => at_most_u32(leaf.postings.docs.len()),
            ScorerTree::Passthrough { inner } => inner.size_hint(),
            ScorerTree::Union { docsets, num_docs, .. } => if total_size_hint(docsets)
                <= num_docs {
                total_size_hint(docsets) as u32
            } else {
                num_docs
            },
            ScorerTree::Disjunction { docsets, .. } => at_most_u32(total_size_hint(docsets)),
            ScorerTree::Intersection { docsets, .. } => least_size_hint(docsets),
            ScorerTree::RequiredOptional { required, .. } => required.size_hint(),
            ScorerTree::Exclude { underlying, .. } => underlying.size_hint(),
            ScorerTree::JsonPaths { docsets, .. } => least_size_hint(docsets),
            ScorerTree::JsonPathIndexes { docsets, .. } => least_size_hint(docsets),
        }
    }

    /// What it costs to go through the documents, in leaves read.
    pub open spec fn cost(self) -> u64
        decreases self,
    {
        match self {
            ScorerTree::Empty => 0,
            ScorerTree::Term { .. } => self.size_hint() as u64,
            ScorerTree::Phrase { .. } => self.size_hint() as u64,
            ScorerTree::Other { .. } => self.size_hint() as u64,
            ScorerTree::Passthrough { inner } => inner.cost(),
            ScorerTree::Union { docsets, .. } => at_most_u64(total_cost(docsets)),
            ScorerTree::Disjunction { docsets, .. } => at_most_u64(total_cost(docsets)),
            ScorerTree::Intersection { docsets, .. } => first_cost(docsets),
            ScorerTree::RequiredOptional { required, .. } => required.cost(),
            ScorerTree::Exclude { underlying, .. } => underlying.cost(),
            ScorerTree::JsonPaths { docsets, .. } => first_cost(docsets),
            ScorerTree::JsonPathIndexes { docsets, .. } => first_cost(docsets),
        }
    }
}

/// `number`, or the greatest `u32` where it is greater than that.
pub open spec fn at_most_u32(number: nat) -> u32 {
    if number <= u32::MAX {
        number as u32
    } else {
        u32::MAX
    }
}

/// `number`, or the greatest `u64` where it is greater than that.
pub open spec fn at_most_u64(number: nat) -> u64 {
    if number <= u64::MAX {
        number as u64
    } else {
        u64::MAX
    }
}

/// The sum of the size hints of several trees.
pub open spec fn total_size_hint(docsets: Seq<ScorerTree>) -> nat
    decreases docsets,
{
    if docsets.len() == 0 {
        0
    } else {
        total_size_hint(docsets.drop_last()) + docsets.last().size_hint() as nat
    }
}

/// The least of the size hints of several trees.
pub open spec fn least_size_hint(docsets: Seq<ScorerTree>) -> u32
    decreases docsets,
{
    if docsets.len() == 0 {
        u32::MAX
    } else if docsets.last().size_hint() <= least_size_hint(docsets.drop_last()) {
        docsets.last().size_hint()
    } else {
        least_size_hint(docsets.drop_last())
    }
}

/// The sum of the costs of several trees.
pub open spec fn total_cost(docsets: Seq<ScorerTree>) -> nat
    decreases docsets,
{
    if docsets.len() == 0 {
        0
    } else {
        total_cost(docsets.drop_last()) + docsets.last().cost() as nat
    }
}

/// The cost of the first of several trees, which leads the others.
pub open spec fn first_cost(docsets: Seq<ScorerTree>) -> u64
    decreases docsets,
{
    if docsets.len() == 0 {
        0
    } else {
        docsets[0].cost()
    }
}

/// How many of several trees have `doc` among their documents.
pub open spec fn num_matching(docsets: Seq<ScorerTree>, doc: DocId) -> nat
    decreases docsets,
{
    if docsets.len() == 0 {
        0
    } else {
        num_matching(docsets.drop_last(), doc) + if docsets.last().matches(doc) {
            1nat
        } else {
            0
        }
    }
}

/// The paths that each clause knows of in `doc`.
pub open spec fn clause_paths(docsets: Seq<ScorerTree>, doc: DocId) -> Seq<
    Option<Seq<Seq<JsonArrayPathEntry>>>,
> {
    docsets.map_values(|docset: ScorerTree| docset.json_array_paths(doc))
}

/// The path ids that each clause knows of in `doc`.
pub open spec fn clause_path_indexes(docsets: Seq<ScorerTree>, doc: DocId) -> Seq<
    Option<Seq<u32>>,
> {
    docsets.map_values(|docset: ScorerTree| docset.json_array_path_indexes(doc))
}

impl Scorer {
    /// What the scorer goes through.
    pub closed spec fn tree(self) -> ScorerTree
        decreases self,
    {
        match self {
            Scorer::Empty => ScorerTree::Empty,
            Scorer::Term(scorer) => scorer.tree(),
            Scorer::Phrase(scorer) => scorer.tree(),
            Scorer::Other(scorer) => scorer.tree(),
            Scorer::Passthrough(scorer) => ScorerTree::Passthrough {
                inner: Box::new(scorer.inner.tree()),
            },
            Scorer::Union(scorer) => ScorerTree::Union {
                docsets: Seq::new(
                    scorer.docsets@.len(),
                    |i: int|
                        if 0 <= i < scorer.docsets@.len() {
                            scorer.docsets@[i].tree()
                        } else {
                            ScorerTree::Empty
                        },
                ),
                score_combiner: scorer.score_combiner,
                num_docs: scorer.num_docs,
            },
            Scorer::Disjunction(scorer) => ScorerTree::Disjunction {
                docsets: Seq::new(
                    scorer.docsets@.len(),
                    |i: int|
                        if 0 <= i < scorer.docsets@.len() {
                            scorer.docsets@[i].tree()
                        } else {
                            ScorerTree::Empty
                        },
                ),
                score_combiner: scorer.score_combiner,
                minimum_match_required: scorer.minimum_match_required,
            },
            Scorer::Intersection(scorer) => ScorerTree::Intersection {
                docsets: Seq::new(
                    scorer.docsets@.len(),
                    |i: int|
                        if 0 <= i < scorer.docsets@.len() {
                            scorer.docsets@[i].tree()
                        } else {
                            ScorerTree::Empty
                        },
                ),
                num_docs: scorer.num_docs,
            },
            Scorer::RequiredOptional(scorer) => ScorerTree::RequiredOptional {
                required: Box::new(scorer.required.tree()),
                optional: Box::new(scorer.optional.tree()),
                score_combiner: scorer.score_combiner,
            },
            Scorer::Exclude(scorer) => ScorerTree::Exclude {
                underlying: Box::new(scorer.underlying.tree()),
                excluding: Box::new(scorer.excluding.tree()),
            },
            Scorer::JsonPaths(scorer) => ScorerTree::JsonPaths {
                docsets: Seq::new(
                    scorer.intersection.docsets@.len(),
                    |i: int|
                        if 0 <= i < scorer.intersection.docsets@.len() {
                            scorer.intersection.docsets@[i].tree()
                        } else {
                            ScorerTree::Empty
                        },
                ),
                num_docs: scorer.intersection.num_docs,
            },
            Scorer::JsonPathIndexes(scorer) => ScorerTree::JsonPathIndexes {
                docsets: Seq::new(
                    scorer.intersection.docsets@.len(),
                    |i: int|
                        if 0 <= i < scorer.intersection.docsets@.len() {
                            scorer.intersection.docsets@[i].tree()
                        } else {
                            ScorerTree::Empty
                        },
                ),
                num_docs: scorer.intersection.num_docs,
            },
        }
    }

    /// True when the scorer stands on `doc` or before it, and will stop there.
    pub closed spec fn has(self, doc: DocId) -> bool
        decreases self,
    {
        match self {
            Scorer::Empty => false,
            Scorer::Term(scorer) => scorer.has(doc),
            Scorer::Phrase(scorer) => scorer.has(doc),
            Scorer::Other(scorer) => scorer.has(doc),
            Scorer::Passthrough(scorer) => scorer.inner.has(doc),
            Scorer::Union(scorer) => exists|i: int|
                0 <= i < scorer.docsets@.len() && (#[trigger] scorer.docsets@[i]).has(doc),
            Scorer::Disjunction(scorer) => num_having(scorer.docsets@, doc)
                >= scorer.minimum_match_required,
            Scorer::Intersection(scorer) => {
                &&& scorer.docsets@.len() > 0
                &&& forall|i: int|
                    0 <= i < scorer.docsets@.len() ==> (#[trigger] scorer.docsets@[i]).has(doc)
            },
            Scorer::RequiredOptional(scorer) => scorer.required.has(doc),
            Scorer::Exclude(scorer) => scorer.underlying.has(doc) && !scorer.excluding.has(doc),
            Scorer::JsonPaths(scorer) => {
                &&& scorer.intersection.docsets@.len() > 0
                &&& forall|i: int|
                    0 <= i < scorer.intersection.docsets@.len()
                        ==> (#[trigger] scorer.intersection.docsets@[i]).has(doc)
                &&& paths_agree(clause_paths(trees(scorer.intersection.docsets@), doc))
            },
            Scorer::JsonPathIndexes(scorer) => {
                &&& scorer.intersection.docsets@.len() > 0
                &&& forall|i: int|
                    0 <= i < scorer.intersection.docsets@.len()
                        ==> (#[trigger] scorer.intersection.docsets@[i]).has(doc)
                &&& paths_agree(
                    clause_path_indexes(trees(scorer.intersection.docsets@), doc),
                )
            },
        }
    }

    /// True when `doc` is the first document that the scorer has, or `TERMINATED` and it has
    /// none.
    pub open spec fn stands_on(self, doc: DocId) -> bool {
        &&& doc <= TERMINATED
        &&& doc < TERMINATED ==> self.has(doc)
        &&& forall|other: DocId| #[trigger] self.has(other) ==> doc <= other < TERMINATED
    }

    /// The document that the scorer stands on.
    pub open spec fn current(self) -> DocId {
        choose|doc: DocId| self.stands_on(doc)
    }

    /// True when the parts of the scorer are in step with each other.
    pub closed spec fn wf(self) -> bool
        decreases self,
    {
        match self {
            Scorer::Empty => true,
            Scorer::Term(scorer) => scorer.wf(),
            Scorer::Phrase(scorer) => scorer.wf(),
            Scorer::Other(scorer) => scorer.wf(),
            Scorer::Passthrough(scorer) => scorer.inner.wf(),
            Scorer::Union(scorer) => {
                &&& forall|i: int|
                    0 <= i < scorer.docsets@.len() ==> (#[trigger] scorer.docsets@[i]).wf()
                &&& all_kept(scorer.docsets@)
            },
            Scorer::Disjunction(scorer) => {
                &&& scorer.minimum_match_required > 0
                &&& forall|i: int|
                    0 <= i < scorer.docsets@.len() ==> (#[trigger] scorer.docsets@[i]).wf()
                &&& all_kept(scorer.docsets@)
                &&& exists|doc: DocId|
                    first_of_any(scorer.docsets@, doc) && (doc < TERMINATED ==> num_having(
                        scorer.docsets@,
                        doc,
                    ) >= scorer.minimum_match_required)
            },
            Scorer::Intersection(scorer) => {
                &&& forall|i: int|
                    0 <= i < scorer.docsets@.len() ==> (#[trigger] scorer.docsets@[i]).wf()
                &&& in_step(scorer.docsets@)
            },
            Scorer::RequiredOptional(scorer) => {
                &&& scorer.required.wf()
                &&& scorer.optional.wf()
                &&& forall|doc: DocId| #[trigger]
                    scorer.optional.has(doc) ==> doc >= scorer.required.current()
                &&& kept(*scorer.optional, *scorer.required)
            },
            Scorer::Exclude(scorer) => {
                &&& scorer.underlying.wf()
                &&& scorer.excluding.wf()
                &&& scorer.underlying.current() < TERMINATED ==> !scorer.excluding.has(
                    scorer.underlying.current(),
                )
            },
            Scorer::JsonPaths(scorer) => {
                let docsets = scorer.intersection.docsets@;
                &&& scorer.num_terms == docsets.len()
                &&& forall|i: int|
                    0 <= i < scorer.intersection.docsets@.len() ==> (
                    #[trigger] scorer.intersection.docsets@[i]).wf()
                &&& in_step(docsets)
                &&& docsets[0].current() < TERMINATED ==> paths_agree(
                    clause_paths(trees(docsets), docsets[0].current()),
                )
            },
            Scorer::JsonPathIndexes(scorer) => {
                let docsets = scorer.intersection.docsets@;
                &&& scorer.num_terms == docsets.len()
                &&& forall|i: int|
                    0 <= i < scorer.intersection.docsets@.len() ==> (
                    #[trigger] scorer.intersection.docsets@[i]).wf()
                &&& in_step(docsets)
                &&& docsets[0].current() < TERMINATED ==> paths_agree(
                    clause_path_indexes(trees(docsets), docsets[0].current()),
                )
            },
        }
    }

    /// True when the scorer has not moved yet: all documents of its tree are before it.
    pub open spec fn fresh(self) -> bool {
        &&& self.wf()
        &&& forall|doc: DocId| #[trigger] self.has(doc) <==> self.tree().matches(doc)
    }
}

/// True when a scorer that was `before` has moved to `after`, and so left behind the
/// documents before `from` and no others.
pub open spec fn moved_to(before: Scorer, after: Scorer, from: int) -> bool {
    &&& after.wf()
    &&& after.tree() == before.tree()
    &&& forall|doc: DocId| #[trigger] after.has(doc) <==> before.has(doc) && doc >= from
}

/// True when each of several scorers has left behind the documents before `from` and no
/// others.
pub open spec fn all_moved_to(before: Seq<Scorer>, after: Seq<Scorer>, from: int) -> bool {
    &&& after.len() == before.len()
    &&& forall|i: int|
        #![trigger after[i]]
        0 <= i < after.len() ==> moved_to(before[i], after[i], from)
}

/// A scorer stands on one document only.
pub proof fn lemma_stands_on(scorer: Scorer, doc: DocId)
    requires
        scorer.stands_on(doc),
    ensures
        scorer.current() == doc,
{
    let other = scorer.current();
    assert(scorer.stands_on(other));
}

/// What each of several scorers goes through.
pub open spec fn trees(scorers: Seq<Scorer>) -> Seq<ScorerTree> {
    scorers.map_values(|scorer: Scorer| scorer.tree())
}

/// How many of several scorers have `doc`.
pub closed spec fn num_having(scorers: Seq<Scorer>, doc: DocId) -> nat
    decreases scorers,
{
    if scorers.len() == 0 {
        0
    } else {
        num_having(scorers.drop_last(), doc) + if scorers.last().has(doc) {
            1nat
        } else {
            0
        }
    }
}

/// True when one of several scorers has `doc`.
pub open spec fn any_has(scorers: Seq<Scorer>, doc: DocId) -> bool {
    exists|i: int| 0 <= i < scorers.len() && (#[trigger] scorers[i]).has(doc)
}

/// True when each of several scorers has `doc`.
pub open spec fn all_have(scorers: Seq<Scorer>, doc: DocId) -> bool {
    forall|i: int| 0 <= i < scorers.len() ==> (#[trigger] scorers[i]).has(doc)
}

/// True when each of several scorers is well-formed.
pub open spec fn all_wf(scorers: Seq<Scorer>) -> bool {
    forall|i: int| 0 <= i < scorers.len() ==> (#[trigger] scorers[i]).wf()
}

/// True when none of several scorers has moved yet.
pub open spec fn all_fresh(scorers: Seq<Scorer>) -> bool {
    forall|i: int| 0 <= i < scorers.len() ==> (#[trigger] scorers[i]).fresh()
}

/// True when `doc` is the first document that any of several scorers has, or `TERMINATED`
/// and none has any.
pub open spec fn first_of_any(scorers: Seq<Scorer>, doc: DocId) -> bool {
    &&& doc <= TERMINATED
    &&& doc < TERMINATED ==> any_has(scorers, doc)
    &&& forall|i: int, other: DocId|
        0 <= i < scorers.len() && #[trigger] scorers[i].has(other) ==> doc <= other < TERMINATED
}

/// True when each of several scorers stands on `doc`.
pub open spec fn all_stand_on(scorers: Seq<Scorer>, doc: DocId) -> bool {
    forall|i: int| 0 <= i < scorers.len() ==> (#[trigger] scorers[i]).stands_on(doc)
}

/// True when all of several scorers stand on the same document.
pub open spec fn in_step(scorers: Seq<Scorer>) -> bool {
    scorers.len() > 0 && exists|doc: DocId| all_stand_on(scorers, doc)
}

/// True when `part` has documents of its tree only, and has left behind none of them but
/// those before all documents that `lead` has.
#[verifier::opaque]
pub open spec fn kept(part: Scorer, lead: Scorer) -> bool {
    &&& forall|doc: DocId| #[trigger] part.has(doc) ==> part.tree().matches(doc)
    &&& forall|doc: DocId, other: DocId|
        #![trigger part.tree().matches(doc), lead.has(other)]
        part.tree().matches(doc) && !part.has(doc) && lead.has(other) ==> doc < other
}

/// True when none of several scorers has left behind a document that is not before all
/// documents that any of them has.
pub open spec fn all_kept(scorers: Seq<Scorer>) -> bool {
    forall|i: int, j: int|
        0 <= i < scorers.len() && 0 <= j < scorers.len() ==> #[trigger] kept(scorers[i], scorers[j])
}

/// A scorer that has not moved yet has left nothing behind.
proof fn lemma_kept_fresh(part: Scorer, lead: Scorer)
    requires
        part.fresh(),
    ensures
        kept(part, lead),
{
    reveal(kept);
}

/// Where `part` moves to `from`, and `lead` to there or further, nothing else is left behind.
proof fn lemma_kept_moved(
    part: Scorer,
    lead: Scorer,
    part_after: Scorer,
    lead_after: Scorer,
    from: int,
)
    requires
        kept(part, lead),
        moved_to(part, part_after, from),
        forall|doc: DocId| #[trigger] lead_after.has(doc) ==> lead.has(doc) && doc >= from,
    ensures
        kept(part_after, lead_after),
{
    reveal(kept);
    assert forall|doc: DocId, other: DocId|
        #![trigger part_after.tree().matches(doc), lead_after.has(other)]
        part_after.tree().matches(doc) && !part_after.has(doc) && lead_after.has(
            other,
        ) implies doc < other by {
        assert(part.tree().matches(doc));
        assert(lead.has(other));
        assert(part_after.has(doc) <==> part.has(doc) && doc >= from);
    }
    assert forall|doc: DocId| #[trigger] part_after.has(doc) implies part_after.tree().matches(
        doc,
    ) by {
        assert(part.has(doc));
    }
}

/// Scorers that have moved together have left nothing else behind.
proof fn lemma_all_kept_moved(before: Seq<Scorer>, after: Seq<Scorer>, from: int)
    requires
        all_kept(before),
        all_moved_to(before, after, from),
    ensures
        all_kept(after),
{
    assert forall|i: int, j: int|
        0 <= i < after.len() && 0 <= j < after.len() implies #[trigger] kept(
        after[i],
        after[j],
    ) by {
        assert(kept(before[i], before[j]));
        assert(moved_to(before[i], after[i], from));
        assert(moved_to(before[j], after[j], from));
        lemma_kept_moved(before[i], before[j], after[i], after[j], from);
    }
}

/// What has not been left behind is still had.
proof fn lemma_kept_at(part: Scorer, lead: Scorer, doc: DocId)
    requires
        kept(part, lead),
        lead.has(doc),
    ensures
        part.has(doc) <==> part.tree().matches(doc),
{
    reveal(kept);
}

impl Scorer {
    /// What a scorer made of others has, in terms of what these have.
    spec fn parts_have(self, doc: DocId) -> bool {
        match self {
            Scorer::Passthrough(scorer) => scorer.inner.has(doc),
            Scorer::Union(scorer) => any_has(scorer.docsets@, doc),
            Scorer::Disjunction(scorer) => num_having(scorer.docsets@, doc)
                >= scorer.minimum_match_required,
            Scorer::Intersection(scorer) => scorer.docsets@.len() > 0 && all_have(
                scorer.docsets@,
                doc,
            ),
            Scorer::RequiredOptional(scorer) => scorer.required.has(doc),
            Scorer::Exclude(scorer) => scorer.underlying.has(doc) && !scorer.excluding.has(doc),
            Scorer::JsonPaths(scorer) => {
                let docsets = scorer.intersection.docsets@;
                &&& docsets.len() > 0
                &&& all_have(docsets, doc)
                &&& paths_agree(clause_paths(trees(docsets), doc))
            },
            Scorer::JsonPathIndexes(scorer) => {
                let docsets = scorer.intersection.docsets@;
                &&& docsets.len() > 0
                &&& all_have(docsets, doc)
                &&& paths_agree(clause_path_indexes(trees(docsets), doc))
            },
            _ => self.has(doc),
        }
    }
}

proof fn lemma_has(scorer: Scorer)
    ensures
        forall|doc: DocId| #[trigger] scorer.has(doc) <==> scorer.parts_have(doc),
{
    assert forall|doc: DocId| #[trigger] scorer.has(doc) <==> scorer.parts_have(doc) by {
        reveal_with_fuel(Scorer::has, 2);
    }
}

/// Some scorer has a document where at least one is counted.
proof fn lemma_any_having(scorers: Seq<Scorer>, doc: DocId)
    ensures
        any_has(scorers, doc) <==> num_having(scorers, doc) > 0,
    decreases scorers.len(),
{
    if scorers.len() > 0 {
        let rest = scorers.drop_last();
        lemma_any_having(rest, doc);
        assert(num_having(scorers, doc) == num_having(rest, doc) + if scorers.last().has(doc) {
            1nat
        } else {
            0
        });
        if any_has(rest, doc) {
            let i = choose|i: int| 0 <= i < rest.len() && (#[trigger] rest[i]).has(doc);
            assert(scorers[i].has(doc));
        }
        if any_has(scorers, doc) && !scorers.last().has(doc) {
            let i = choose|i: int| 0 <= i < scorers.len() && (#[trigger] scorers[i]).has(doc);
            assert(rest[i].has(doc));
        }
        if scorers.last().has(doc) {
            assert(scorers[scorers.len() - 1].has(doc));
        }
    }
}

/// What scorers that have not moved yet have.
proof fn lemma_fresh_parts(scorers: Seq<Scorer>, doc: DocId)
    requires
        all_fresh(scorers),
    ensures
        any_has(scorers, doc) <==> num_matching(trees(scorers), doc) > 0,
        all_have(scorers, doc) <==> forall|i: int|
            0 <= i < trees(scorers).len() ==> (#[trigger] trees(scorers)[i]).matches(doc),
        num_having(scorers, doc) == num_matching(trees(scorers), doc),
    decreases scorers.len(),
{
    let parts = trees(scorers);
    assert forall|i: int| 0 <= i < scorers.len() implies ((#[trigger] scorers[i]).has(doc)
        <==> parts[i].matches(doc)) by {
        assert(scorers[i].fresh());
    }
    lemma_any_having(scorers, doc);
    if all_have(scorers, doc) {
        assert forall|i: int| 0 <= i < parts.len() implies (#[trigger] parts[i]).matches(
            doc,
        ) by {
            assert(scorers[i].has(doc));
        }
    }
    if forall|i: int| 0 <= i < parts.len() ==> (#[trigger] parts[i]).matches(doc) {
        assert forall|i: int| 0 <= i < scorers.len() implies (#[trigger] scorers[i]).has(
            doc,
        ) by {
            assert(parts[i].matches(doc));
        }
    }
    if scorers.len() > 0 {
        let rest = scorers.drop_last();
        assert forall|i: int| 0 <= i < rest.len() implies (#[trigger] rest[i]).fresh() by {
            assert(rest[i] == scorers[i]);
        }
        lemma_fresh_parts(rest, doc);
        assert(trees(rest) =~= parts.drop_last());
        assert(scorers.last() == scorers[scorers.len() - 1]);
        assert(num_having(scorers, doc) == num_having(rest, doc) + if scorers.last().has(doc) {
            1nat
        } else {
            0
        });
        assert(num_matching(parts, doc) == num_matching(parts.drop_last(), doc) + if
            parts.last().matches(doc) {
            1nat
        } else {
            0
        });
    }
}

/// What a scorer made of others goes through, in terms of what these go through.
proof fn lemma_tree(scorer: Scorer)
    ensures
        match scorer {
            Scorer::Passthrough(passthrough) => decreases_to!(
                scorer.tree() => passthrough.inner.tree()),
            Scorer::RequiredOptional(both) => {
                &&& decreases_to!(scorer.tree() => both.required.tree())
                &&& decreases_to!(scorer.tree() => both.optional.tree())
            },
            Scorer::Exclude(exclude) => {
                &&& decreases_to!(scorer.tree() => exclude.underlying.tree())
                &&& decreases_to!(scorer.tree() => exclude.excluding.tree())
            },
            Scorer::Union(union) => {
                &&& scorer.tree() == (ScorerTree::Union {
                    docsets: trees(union.docsets@),
                    score_combiner: union.score_combiner,
                    num_docs: union.num_docs,
                })
                &&& decreases_to!(scorer.tree() => trees(union.docsets@))
            },
            Scorer::Disjunction(disjunction) => {
                &&& scorer.tree() == (ScorerTree::Disjunction {
                    docsets: trees(disjunction.docsets@),
                    score_combiner: disjunction.score_combiner,
                    minimum_match_required: disjunction.minimum_match_required,
                })
                &&& decreases_to!(scorer.tree() => trees(disjunction.docsets@))
            },
            Scorer::Intersection(intersection) => {
                &&& scorer.tree() == (ScorerTree::Intersection {
                    docsets: trees(intersection.docsets@),
                    num_docs: intersection.num_docs,
                })
                &&& decreases_to!(scorer.tree() => trees(intersection.docsets@))
            },
            Scorer::JsonPaths(constraint) => {
                &&& scorer.tree() == (ScorerTree::JsonPaths {
                    docsets: trees(constraint.intersection.docsets@),
                    num_docs: constraint.intersection.num_docs,
                })
                &&& decreases_to!(scorer.tree() => trees(constraint.intersection.docsets@))
            },
            Scorer::JsonPathIndexes(constraint) => {
                &&& scorer.tree() == (ScorerTree::JsonPathIndexes {
                    docsets: trees(constraint.intersection.docsets@),
                    num_docs: constraint.intersection.num_docs,
                })
                &&& decreases_to!(scorer.tree() => trees(constraint.intersection.docsets@))
            },
            _ => true,
        },
{
    reveal_with_fuel(Scorer::tree, 2);
    match scorer {
        Scorer::Passthrough(passthrough) => {
            assert(decreases_to!(scorer.tree() => scorer.tree()->inner));
        },
        Scorer::RequiredOptional(both) => {
            assert(decreases_to!(scorer.tree() => scorer.tree()->required));
            assert(decreases_to!(scorer.tree() => scorer.tree()->optional));
        },
        Scorer::Exclude(exclude) => {
            assert(decreases_to!(scorer.tree() => scorer.tree()->underlying));
            assert(decreases_to!(scorer.tree() => scorer.tree()->excluding));
        },
        Scorer::Union(union) => {
            assert(scorer.tree()->Union_docsets =~= trees(union.docsets@));
            assert(decreases_to!(scorer.tree() => scorer.tree()->Union_docsets));
        },
        Scorer::Disjunction(disjunction) => {
            assert(scorer.tree()->Disjunction_docsets =~= trees(disjunction.docsets@));
            assert(decreases_to!(scorer.tree() => scorer.tree()->Disjunction_docsets));
        },
        Scorer::Intersection(intersection) => {
            assert(scorer.tree()->Intersection_docsets =~= trees(intersection.docsets@));
            assert(decreases_to!(scorer.tree() => scorer.tree()->Intersection_docsets));
        },
        Scorer::JsonPaths(constraint) => {
            assert(scorer.tree()->JsonPaths_docsets =~= trees(constraint.intersection.docsets@));
            assert(decreases_to!(scorer.tree() => scorer.tree()->JsonPaths_docsets));
        },
        Scorer::JsonPathIndexes(constraint) => {
            assert(scorer.tree()->JsonPathIndexes_docsets =~= trees(
                constraint.intersection.docsets@,
            ));
            assert(decreases_to!(scorer.tree() => scorer.tree()->JsonPathIndexes_docsets));
        },
        _ => {},
    }
}

impl TermScorer {
    /// What the scorer goes through.
    pub closed spec fn tree(self) -> ScorerTree {
        ScorerTree::Term {
            leaf: Leaf { handle: self.handle, postings: self.postings.postings() },
            json_constraint_key: self.json_constraint_key,
            freq_reading_option: self.freq_reading_option,
        }
    }

    pub closed spec fn has(self, doc: DocId) -> bool {
        self.postings.has(doc)
    }

    pub closed spec fn wf(self) -> bool {
        self.postings.wf()
    }
}

impl PhraseScorer {
    /// What the scorer goes through.
    pub closed spec fn tree(self) -> ScorerTree {
        ScorerTree::Phrase {
            leaf: Leaf { handle: self.handle, postings: self.postings.postings() },
            json_constraint_key: self.json_constraint_key,
        }
    }

    pub closed spec fn has(self, doc: DocId) -> bool {
        self.postings.has(doc)
    }

    pub closed spec fn wf(self) -> bool {
        self.postings.wf()
    }
}

impl OtherScorer {
    /// What the scorer goes through.
    pub closed spec fn tree(self) -> ScorerTree {
        ScorerTree::Other {
            leaf: Leaf { handle: self.handle, postings: self.postings.postings() },
        }
    }

    pub closed spec fn has(self, doc: DocId) -> bool {
        self.postings.has(doc)
    }

    pub closed spec fn wf(self) -> bool {
        self.postings.wf()
    }
}

} // verus!
