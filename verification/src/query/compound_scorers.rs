//! Scorers made of other scorers.
use vstd::prelude::*;

use crate::docset::{DocId, TERMINATED};
use crate::query;
use crate::query::scorer_list::{
    advance_all_at, align, count_at, first_cost, first_doc, least_size_hint, seek_all,
};
use crate::query::{ScoreCombiner, Scorer, ScorerTree};

verus! {

/// Goes through the documents that any of its scorers has.
pub struct UnionScorer {
    pub(crate) docsets: Vec<Scorer>,
    pub(crate) score_combiner: ScoreCombiner,
    pub(crate) num_docs: u32,
}

impl UnionScorer {
    /// A union of `docsets`.
    pub(crate) fn build(docsets: Vec<Scorer>, score_combiner: ScoreCombiner, num_docs: u32) -> (scorer:
        UnionScorer)
        requires
            query::all_fresh(docsets@),
        ensures
            Scorer::Union(scorer).wf(),
            Scorer::Union(scorer).tree() == (ScorerTree::Union {
                docsets: query::trees(docsets@),
                score_combiner,
                num_docs,
            }),
            forall|doc: DocId| #[trigger]
                Scorer::Union(scorer).has(doc) <==> query::any_has(docsets@, doc),
    {
        let scorer = UnionScorer { docsets, score_combiner, num_docs };
        proof {
            query::lemma_tree(Scorer::Union(scorer));
            query::lemma_has(Scorer::Union(scorer));
            lemma_all_fresh_kept(docsets@);
        }
        scorer
    }

    /// The document that the scorer stands on.
    pub(crate) fn doc(&self) -> (doc: DocId)
        requires
            Scorer::Union(*self).wf(),
        ensures
            Scorer::Union(*self).stands_on(doc),
        decreases query::trees(self.docsets@), 1nat,
    {
        proof {
            query::lemma_has(Scorer::Union(*self));
        }
        first_doc(&self.docsets)
    }

    /// Moves to the first document that is not before `target`.
    pub(crate) fn seek(&mut self, target: DocId) -> (doc: DocId)
        requires
            Scorer::Union(*old(self)).wf(),
        ensures
            query::moved_to(
                Scorer::Union(*old(self)),
                Scorer::Union(*final(self)),
                target as int,
            ),
            Scorer::Union(*final(self)).stands_on(doc),
        decreases query::trees(old(self).docsets@), 1nat,
    {
        seek_all(&mut self.docsets, target);
        proof {
            lemma_union_moved(*old(self), *self, target as int);
        }
        self.doc()
    }

    /// Moves to the next document.
    pub(crate) fn advance(&mut self) -> (doc: DocId)
        requires
            Scorer::Union(*old(self)).wf(),
        ensures
            Scorer::Union(*old(self)).stands_on(Scorer::Union(*old(self)).current()),
            query::moved_to(
                Scorer::Union(*old(self)),
                Scorer::Union(*final(self)),
                Scorer::Union(*old(self)).current() + 1,
            ),
            Scorer::Union(*final(self)).stands_on(doc),
        decreases query::trees(old(self).docsets@), 1nat,
    {
        let here: DocId = first_doc(&self.docsets);
        proof {
            query::lemma_has(Scorer::Union(*self));
            query::lemma_stands_on(Scorer::Union(*self), here);
        }
        advance_all_at(&mut self.docsets, here);
        proof {
            lemma_union_moved(*old(self), *self, here + 1);
            query::lemma_has(Scorer::Union(*self));
        }
        first_doc(&self.docsets)
    }
}

/// Scorers that have not moved yet have left nothing behind.
proof fn lemma_all_fresh_kept(scorers: Seq<Scorer>)
    requires
        query::all_fresh(scorers),
    ensures
        query::all_kept(scorers),
        query::all_wf(scorers),
{
    assert forall|i: int, j: int|
        0 <= i < scorers.len() && 0 <= j < scorers.len() implies #[trigger] query::kept(
        scorers[i],
        scorers[j],
    ) by {
        query::lemma_kept_fresh(scorers[i], scorers[j]);
    }
}

proof fn lemma_union_moved(before: UnionScorer, after: UnionScorer, from: int)
    requires
        query::all_kept(before.docsets@),
        query::all_moved_to(before.docsets@, after.docsets@, from),
        after.score_combiner == before.score_combiner,
        after.num_docs == before.num_docs,
    ensures
        query::moved_to(Scorer::Union(before), Scorer::Union(after), from),
        query::trees(after.docsets@) == query::trees(before.docsets@),
{
    query::lemma_tree(Scorer::Union(before));
    query::lemma_tree(Scorer::Union(after));
    query::lemma_has(Scorer::Union(before));
    query::lemma_has(Scorer::Union(after));
    query::lemma_all_kept_moved(before.docsets@, after.docsets@, from);
    assert(query::trees(after.docsets@) =~= query::trees(before.docsets@));
    assert forall|doc: DocId| #[trigger]
        Scorer::Union(after).has(doc) <==> Scorer::Union(before).has(doc) && doc >= from by {
        if Scorer::Union(after).has(doc) {
            let i = choose|i: int|
                0 <= i < after.docsets@.len() && (#[trigger] after.docsets@[i]).has(doc);
            assert(before.docsets@[i].has(doc));
        }
        if Scorer::Union(before).has(doc) && doc >= from {
            let i = choose|i: int|
                0 <= i < before.docsets@.len() && (#[trigger] before.docsets@[i]).has(doc);
            assert(after.docsets@[i].has(doc));
        }
    }
}

/// Goes through the documents that at least `minimum_match_required` of its scorers have.
pub struct DisjunctionScorer {
    pub(crate) docsets: Vec<Scorer>,
    pub(crate) score_combiner: ScoreCombiner,
    pub(crate) minimum_match_required: usize,
}

impl DisjunctionScorer {
    /// A disjunction of `docsets`, at least one of which must have a document.
    pub(crate) fn new(
        docsets: Vec<Scorer>,
        score_combiner: ScoreCombiner,
        minimum_match_required: usize,
    ) -> (scorer: DisjunctionScorer)
        requires
            query::all_fresh(docsets@),
            minimum_match_required > 0,
        ensures
            Scorer::Disjunction(scorer).wf(),
            Scorer::Disjunction(scorer).tree() == (ScorerTree::Disjunction {
                docsets: query::trees(docsets@),
                score_combiner,
                minimum_match_required,
            }),
            forall|doc: DocId| #[trigger]
                Scorer::Disjunction(scorer).has(doc) <==> query::num_having(docsets@, doc)
                    >= minimum_match_required,
    {
        let mut scorer = DisjunctionScorer { docsets, score_combiner, minimum_match_required };
        let ghost before = scorer;
        proof {
            lemma_all_fresh_kept(docsets@);
        }
        let _ = scorer.settle();
        proof {
            query::lemma_tree(Scorer::Disjunction(before));
            query::lemma_has(Scorer::Disjunction(before));
        }
        scorer
    }

    /// Moves forwards to a document that enough scorers have.
    fn settle(&mut self) -> (doc: DocId)
        requires
            query::all_wf(old(self).docsets@),
            query::all_kept(old(self).docsets@),
            old(self).minimum_match_required > 0,
        ensures
            query::moved_to(Scorer::Disjunction(*old(self)), Scorer::Disjunction(*final(self)), 0),
            Scorer::Disjunction(*final(self)).stands_on(doc),
        decreases query::trees(old(self).docsets@), 1nat,
    {
        let mut doc: DocId = first_doc(&self.docsets);
        loop
            invariant
                query::first_of_any(self.docsets@, doc),
                query::all_wf(self.docsets@),
                query::all_kept(self.docsets@),
                self.minimum_match_required == old(self).minimum_match_required > 0,
                self.score_combiner == old(self).score_combiner,
                query::trees(self.docsets@) == query::trees(old(self).docsets@),
                forall|other: DocId| #[trigger]
                    Scorer::Disjunction(*self).has(other) <==> Scorer::Disjunction(
                        *old(self),
                    ).has(other),
            decreases TERMINATED - doc,
        {
            proof {
                self.lemma_settled(doc);
                query::lemma_tree(Scorer::Disjunction(*self));
                query::lemma_tree(Scorer::Disjunction(*old(self)));
            }
            if doc == TERMINATED {
                return doc;
            }
            let count: usize = count_at(&self.docsets, doc);
            if count >= self.minimum_match_required {
                return doc;
            }
            let ghost before = *self;
            advance_all_at(&mut self.docsets, doc);
            proof {
                lemma_disjunction_moved(before, *self, doc + 1);
                query::lemma_has(Scorer::Disjunction(before));
                assert forall|other: DocId| #[trigger]
                    Scorer::Disjunction(*self).has(other) <==> Scorer::Disjunction(before).has(
                        other,
                    ) by {
                    if other <= doc {
                        before.lemma_too_early(doc, other);
                    }
                }
            }
            let ghost passed = doc;
            doc = first_doc(&self.docsets);
            proof {
                if doc < TERMINATED {
                    let i = choose|i: int|
                        0 <= i < self.docsets@.len() && (#[trigger] self.docsets@[i]).has(doc);
                    assert(self.docsets@[i].has(doc));
                    assert(doc > passed);
                }
            }
        }
    }

    /// No document before the first one of any scorer is among those of the disjunction.
    proof fn lemma_too_early(self, doc: DocId, other: DocId)
        requires
            query::first_of_any(self.docsets@, doc),
            other <= doc,
            other == doc ==> doc < TERMINATED && query::num_having(self.docsets@, doc)
                < self.minimum_match_required,
            self.minimum_match_required > 0,
        ensures
            !Scorer::Disjunction(self).has(other),
    {
        query::lemma_has(Scorer::Disjunction(self));
        if other < doc {
            lemma_num_having_zero(self.docsets@, other);
        }
    }

    /// Where the first document of any scorer is one that enough of them have, the
    /// disjunction stands on it.
    proof fn lemma_settled(self, doc: DocId)
        requires
            query::first_of_any(self.docsets@, doc),
            query::all_wf(self.docsets@),
            query::all_kept(self.docsets@),
            self.minimum_match_required > 0,
        ensures
            doc == TERMINATED || query::num_having(self.docsets@, doc)
                >= self.minimum_match_required ==> Scorer::Disjunction(self).stands_on(doc)
                && Scorer::Disjunction(self).wf(),
    {
        if doc == TERMINATED || query::num_having(self.docsets@, doc)
            >= self.minimum_match_required {
            query::lemma_has(Scorer::Disjunction(self));
            assert forall|other: DocId| #[trigger] Scorer::Disjunction(self).has(other) implies doc
                <= other < TERMINATED by {
                if !(doc <= other < TERMINATED) {
                    lemma_num_having_zero(self.docsets@, other);
                }
            }
        }
    }

    /// The document that the scorer stands on.
    pub(crate) fn doc(&self) -> (doc: DocId)
        requires
            Scorer::Disjunction(*self).wf(),
        ensures
            Scorer::Disjunction(*self).stands_on(doc),
        decreases query::trees(self.docsets@), 1nat,
    {
        let doc: DocId = first_doc(&self.docsets);
        proof {
            self.lemma_first(doc);
        }
        doc
    }

    /// A disjunction stands on the first document of any of its scorers.
    proof fn lemma_first(self, doc: DocId)
        requires
            Scorer::Disjunction(self).wf(),
            query::first_of_any(self.docsets@, doc),
        ensures
            Scorer::Disjunction(self).stands_on(doc),
            Scorer::Disjunction(self).current() == doc,
    {
        let other = choose|other: DocId|
            query::first_of_any(self.docsets@, other) && (other < TERMINATED
                ==> query::num_having(self.docsets@, other) >= self.minimum_match_required);
        lemma_first_of_any(self.docsets@, doc, other);
        self.lemma_settled(doc);
        query::lemma_stands_on(Scorer::Disjunction(self), doc);
    }

    /// Moves to the first document that is not before `target`.
    pub(crate) fn seek(&mut self, target: DocId) -> (doc: DocId)
        requires
            Scorer::Disjunction(*old(self)).wf(),
        ensures
            query::moved_to(
                Scorer::Disjunction(*old(self)),
                Scorer::Disjunction(*final(self)),
                target as int,
            ),
            Scorer::Disjunction(*final(self)).stands_on(doc),
        decreases query::trees(old(self).docsets@), 2nat,
    {
        seek_all(&mut self.docsets, target);
        proof {
            lemma_disjunction_moved(*old(self), *self, target as int);
        }
        self.settle()
    }

    /// Moves to the next document.
    pub(crate) fn advance(&mut self) -> (doc: DocId)
        requires
            Scorer::Disjunction(*old(self)).wf(),
        ensures
            Scorer::Disjunction(*old(self)).stands_on(Scorer::Disjunction(*old(self)).current()),
            query::moved_to(
                Scorer::Disjunction(*old(self)),
                Scorer::Disjunction(*final(self)),
                Scorer::Disjunction(*old(self)).current() + 1,
            ),
            Scorer::Disjunction(*final(self)).stands_on(doc),
        decreases query::trees(old(self).docsets@), 2nat,
    {
        let here: DocId = first_doc(&self.docsets);
        proof {
            self.lemma_first(here);
        }
        advance_all_at(&mut self.docsets, here);
        proof {
            lemma_disjunction_moved(*old(self), *self, here + 1);
        }
        self.settle()
    }
}

/// There is only one first document.
proof fn lemma_first_of_any(scorers: Seq<Scorer>, one: DocId, other: DocId)
    requires
        query::first_of_any(scorers, one),
        query::first_of_any(scorers, other),
    ensures
        one == other,
{
    if one < TERMINATED {
        let i = choose|i: int| 0 <= i < scorers.len() && (#[trigger] scorers[i]).has(one);
        assert(scorers[i].has(one));
    }
    if other < TERMINATED {
        let i = choose|i: int| 0 <= i < scorers.len() && (#[trigger] scorers[i]).has(other);
        assert(scorers[i].has(other));
    }
}

/// Where no scorer has a document, none is counted.
proof fn lemma_num_having_zero(scorers: Seq<Scorer>, doc: DocId)
    requires
        forall|i: int| 0 <= i < scorers.len() ==> !(#[trigger] scorers[i]).has(doc),
    ensures
        query::num_having(scorers, doc) == 0,
    decreases scorers.len(),
{
    if scorers.len() > 0 {
        let rest = scorers.drop_last();
        assert(forall|i: int| 0 <= i < rest.len() ==> rest[i] == scorers[i]);
        lemma_num_having_zero(rest, doc);
        assert(!scorers.last().has(doc));
    }
}

/// Where the same scorers have a document, as many are counted.
proof fn lemma_num_having_same(one: Seq<Scorer>, other: Seq<Scorer>, doc: DocId)
    requires
        one.len() == other.len(),
        forall|i: int|
            0 <= i < one.len() ==> ((#[trigger] one[i]).has(doc) <==> other[i].has(doc)),
    ensures
        query::num_having(one, doc) == query::num_having(other, doc),
    decreases one.len(),
{
    if one.len() > 0 {
        assert(forall|i: int| 0 <= i < one.len() - 1 ==> one.drop_last()[i] == one[i]);
        lemma_num_having_same(one.drop_last(), other.drop_last(), doc);
        assert(one.last().has(doc) <==> other.last().has(doc)) by {
            assert(one[one.len() - 1].has(doc) <==> other[one.len() - 1].has(doc));
        }
    }
}

proof fn lemma_disjunction_moved(before: DisjunctionScorer, after: DisjunctionScorer, from: int)
    requires
        query::all_kept(before.docsets@),
        query::all_moved_to(before.docsets@, after.docsets@, from),
        after.score_combiner == before.score_combiner,
        after.minimum_match_required == before.minimum_match_required > 0,
    ensures
        query::all_kept(after.docsets@),
        query::trees(after.docsets@) == query::trees(before.docsets@),
        Scorer::Disjunction(after).tree() == Scorer::Disjunction(before).tree(),
        query::all_wf(after.docsets@),
        forall|doc: DocId| #[trigger]
            Scorer::Disjunction(after).has(doc) <==> Scorer::Disjunction(before).has(doc) && doc
                >= from,
{
    query::lemma_tree(Scorer::Disjunction(before));
    query::lemma_tree(Scorer::Disjunction(after));
    query::lemma_has(Scorer::Disjunction(before));
    query::lemma_has(Scorer::Disjunction(after));
    query::lemma_all_kept_moved(before.docsets@, after.docsets@, from);
    assert(query::trees(after.docsets@) =~= query::trees(before.docsets@));
    assert forall|doc: DocId| #[trigger]
        Scorer::Disjunction(after).has(doc) <==> Scorer::Disjunction(before).has(doc) && doc
            >= from by {
        if doc >= from {
            lemma_num_having_same(after.docsets@, before.docsets@, doc);
        } else {
            lemma_num_having_zero(after.docsets@, doc);
        }
    }
}

/// Goes through the documents that all of its scorers have.
pub struct Intersection {
    pub(crate) docsets: Vec<Scorer>,
    pub(crate) num_docs: u32,
}

impl Intersection {
    /// An intersection of `docsets`, of which there is at least one.
    pub(crate) fn new(docsets: Vec<Scorer>, num_docs: u32) -> (scorer: Intersection)
        requires
            docsets@.len() > 0,
            query::all_wf(docsets@),
        ensures
            Scorer::Intersection(scorer).wf(),
            Scorer::Intersection(scorer).tree() == (ScorerTree::Intersection {
                docsets: query::trees(docsets@),
                num_docs,
            }),
            forall|doc: DocId| #[trigger]
                Scorer::Intersection(scorer).has(doc) <==> query::all_have(docsets@, doc),
    {
        let mut docsets = docsets;
        let _ = align(&mut docsets);
        let scorer = Intersection { docsets, num_docs };
        proof {
            query::lemma_tree(Scorer::Intersection(scorer));
            query::lemma_has(Scorer::Intersection(scorer));
        }
        scorer
    }

    /// The scorers of an intersection stand where the intersection does.
    pub(crate) proof fn lemma_current(self)
        requires
            Scorer::Intersection(self).wf(),
        ensures
            self.docsets@.len() > 0,
            query::all_wf(self.docsets@),
            query::all_stand_on(self.docsets@, self.docsets@[0].current()),
            Scorer::Intersection(self).stands_on(self.docsets@[0].current()),
            Scorer::Intersection(self).current() == self.docsets@[0].current(),
    {
        let doc = choose|doc: DocId| query::all_stand_on(self.docsets@, doc);
        query::lemma_has(Scorer::Intersection(self));
        query::lemma_stands_on(self.docsets@[0], doc);
        query::lemma_stands_on(Scorer::Intersection(self), doc);
    }

    /// The document that the scorer stands on.
    pub(crate) fn doc(&self) -> (doc: DocId)
        requires
            Scorer::Intersection(*self).wf(),
        ensures
            Scorer::Intersection(*self).stands_on(doc),
        decreases query::trees(self.docsets@), 1nat,
    {
        proof {
            self.lemma_current();
            assert(query::trees(self.docsets@)[0] == self.docsets@[0].tree());
            assert(decreases_to!(query::trees(self.docsets@) => query::trees(self.docsets@)[0]));
        }
        self.docsets[0].doc()
    }

    /// Moves to the first document that is not before `target`.
    pub(crate) fn seek(&mut self, target: DocId) -> (doc: DocId)
        requires
            Scorer::Intersection(*old(self)).wf(),
        ensures
            query::moved_to(
                Scorer::Intersection(*old(self)),
                Scorer::Intersection(*final(self)),
                target as int,
            ),
            Scorer::Intersection(*final(self)).stands_on(doc),
        decreases query::trees(old(self).docsets@), 1nat,
    {
        proof {
            self.lemma_current();
            assert(query::trees(self.docsets@)[0] == self.docsets@[0].tree());
            assert(decreases_to!(query::trees(self.docsets@) => query::trees(self.docsets@)[0]));
        }
        let _ = self.docsets[0].seek(target);
        let ghost ahead = *self;
        proof {
            assert(query::trees(ahead.docsets@) =~= query::trees(old(self).docsets@));
        }
        let doc: DocId = align(&mut self.docsets);
        proof {
            lemma_intersection_moved(*old(self), ahead, *self, target as int);
            self.lemma_aligned(doc);
        }
        doc
    }

    /// Moves to the next document.
    pub(crate) fn advance(&mut self) -> (doc: DocId)
        requires
            Scorer::Intersection(*old(self)).wf(),
        ensures
            Scorer::Intersection(*old(self)).stands_on(
                Scorer::Intersection(*old(self)).current(),
            ),
            query::moved_to(
                Scorer::Intersection(*old(self)),
                Scorer::Intersection(*final(self)),
                Scorer::Intersection(*old(self)).current() + 1,
            ),
            Scorer::Intersection(*final(self)).stands_on(doc),
        decreases query::trees(old(self).docsets@), 1nat,
    {
        proof {
            self.lemma_current();
            assert(query::trees(self.docsets@)[0] == self.docsets@[0].tree());
            assert(decreases_to!(query::trees(self.docsets@) => query::trees(self.docsets@)[0]));
        }
        let _ = self.docsets[0].advance();
        let ghost ahead = *self;
        proof {
            assert(query::trees(ahead.docsets@) =~= query::trees(old(self).docsets@));
        }
        let doc: DocId = align(&mut self.docsets);
        proof {
            lemma_intersection_moved(
                *old(self),
                ahead,
                *self,
                Scorer::Intersection(*old(self)).current() + 1,
            );
            self.lemma_aligned(doc);
        }
        doc
    }

    /// How many documents there are, roughly: no more than the scorer with the fewest has.
    pub(crate) fn size_hint(&self) -> (size_hint: u32)
        ensures
            size_hint == query::least_size_hint(query::trees(self.docsets@)),
        decreases query::trees(self.docsets@), 1nat,
    {
        least_size_hint(&self.docsets)
    }

    /// What it costs to go through the documents: as much as the first scorer does, which
    /// leads the others.
    pub(crate) fn cost(&self) -> (cost: u64)
        ensures
            cost == query::first_cost(query::trees(self.docsets@)),
        decreases query::trees(self.docsets@), 1nat,
    {
        first_cost(&self.docsets)
    }

    proof fn lemma_aligned(self, doc: DocId)
        requires
            self.docsets@.len() > 0,
            query::all_stand_on(self.docsets@, doc),
        ensures
            Scorer::Intersection(self).stands_on(doc),
    {
        query::lemma_has(Scorer::Intersection(self));
        assert(self.docsets@[0].stands_on(doc));
    }
}

/// An intersection whose first scorer has moved ahead, and whose scorers have then come into
/// step again, has moved as that scorer did.
proof fn lemma_intersection_moved(
    before: Intersection,
    ahead: Intersection,
    after: Intersection,
    from: int,
)
    requires
        Scorer::Intersection(before).wf(),
        ahead.docsets@ == before.docsets@.update(0, ahead.docsets@[0]),
        query::moved_to(before.docsets@[0], ahead.docsets@[0], from),
        query::all_wf(after.docsets@),
        query::in_step(after.docsets@),
        query::trees(after.docsets@) == query::trees(before.docsets@),
        after.num_docs == before.num_docs,
        forall|doc: DocId| #[trigger]
            query::all_have(after.docsets@, doc) <==> query::all_have(ahead.docsets@, doc),
    ensures
        query::moved_to(Scorer::Intersection(before), Scorer::Intersection(after), from),
{
    before.lemma_current();
    query::lemma_tree(Scorer::Intersection(before));
    query::lemma_tree(Scorer::Intersection(after));
    query::lemma_has(Scorer::Intersection(before));
    query::lemma_has(Scorer::Intersection(after));
    assert forall|doc: DocId| #[trigger]
        Scorer::Intersection(after).has(doc) <==> Scorer::Intersection(before).has(doc) && doc
            >= from by {
        assert(query::all_have(after.docsets@, doc) <==> query::all_have(ahead.docsets@, doc));
        if query::all_have(ahead.docsets@, doc) {
            assert forall|i: int| 0 <= i < before.docsets@.len() implies (
            #[trigger] before.docsets@[i]).has(doc) by {
                assert(ahead.docsets@[i].has(doc));
            }
            assert(ahead.docsets@[0].has(doc));
        }
        if Scorer::Intersection(before).has(doc) && doc >= from {
            assert forall|i: int| 0 <= i < ahead.docsets@.len() implies (
            #[trigger] ahead.docsets@[i]).has(doc) by {
                assert(before.docsets@[i].has(doc));
            }
        }
    }
}

/// Goes through the documents of `required`. Where `optional` has them too, it adds to the
/// score.
pub struct RequiredOptionalScorer {
    pub(crate) required: Box<Scorer>,
    pub(crate) optional: Box<Scorer>,
    pub(crate) score_combiner: ScoreCombiner,
}

impl RequiredOptionalScorer {
    /// The documents of `required`, to whose score `optional` may add.
    pub(crate) fn new(required: Scorer, optional: Scorer, score_combiner: ScoreCombiner) -> (
    scorer: RequiredOptionalScorer)
        requires
            required.wf(),
            optional.fresh(),
        ensures
            Scorer::RequiredOptional(scorer).wf(),
            Scorer::RequiredOptional(scorer).tree() == (ScorerTree::RequiredOptional {
                required: Box::new(required.tree()),
                optional: Box::new(optional.tree()),
                score_combiner,
            }),
            forall|doc: DocId| #[trigger]
                Scorer::RequiredOptional(scorer).has(doc) <==> required.has(doc),
    {
        let mut scorer = RequiredOptionalScorer {
            required: Box::new(required),
            optional: Box::new(optional),
            score_combiner,
        };
        let ghost before = scorer;
        let doc: DocId = scorer.required.doc();
        proof {
            query::lemma_kept_fresh(optional, required);
        }
        scorer.follow(doc);
        proof {
            query::lemma_has(Scorer::RequiredOptional(before));
            reveal_with_fuel(Scorer::tree, 2);
        }
        scorer
    }

    /// Moves `optional` to `doc`, where `required` stands.
    fn follow(&mut self, doc: DocId)
        requires
            old(self).required.wf(),
            old(self).optional.wf(),
            old(self).required.stands_on(doc),
            query::kept(*old(self).optional, *old(self).required),
        ensures
            query::moved_to(
                Scorer::RequiredOptional(*old(self)),
                Scorer::RequiredOptional(*final(self)),
                0,
            ),
            Scorer::RequiredOptional(*final(self)).stands_on(doc),
        decreases Scorer::RequiredOptional(*old(self)).tree(), 1nat,
    {
        proof {
            query::lemma_tree(Scorer::RequiredOptional(*self));
            query::lemma_has(Scorer::RequiredOptional(*self));
            query::lemma_stands_on(*self.required, doc);
        }
        let _ = self.optional.seek(doc);
        proof {
            query::lemma_kept_moved(
                *old(self).optional,
                *old(self).required,
                *self.optional,
                *self.required,
                doc as int,
            );
            query::lemma_has(Scorer::RequiredOptional(*self));
            reveal_with_fuel(Scorer::tree, 2);
        }
    }

    /// The document that the scorer stands on.
    pub(crate) fn doc(&self) -> (doc: DocId)
        requires
            Scorer::RequiredOptional(*self).wf(),
        ensures
            Scorer::RequiredOptional(*self).stands_on(doc),
        decreases Scorer::RequiredOptional(*self).tree(), 2nat,
    {
        proof {
            query::lemma_tree(Scorer::RequiredOptional(*self));
            query::lemma_has(Scorer::RequiredOptional(*self));
        }
        self.required.doc()
    }

    /// Moves to the first document that is not before `target`.
    pub(crate) fn seek(&mut self, target: DocId) -> (doc: DocId)
        requires
            Scorer::RequiredOptional(*old(self)).wf(),
        ensures
            query::moved_to(
                Scorer::RequiredOptional(*old(self)),
                Scorer::RequiredOptional(*final(self)),
                target as int,
            ),
            Scorer::RequiredOptional(*final(self)).stands_on(doc),
        decreases Scorer::RequiredOptional(*old(self)).tree(), 2nat,
    {
        proof {
            query::lemma_tree(Scorer::RequiredOptional(*self));
            query::lemma_has(Scorer::RequiredOptional(*self));
        }
        let doc: DocId = self.required.seek(target);
        proof {
            query::lemma_has(Scorer::RequiredOptional(*self));
            reveal_with_fuel(Scorer::tree, 2);
            lemma_kept_led(*self.optional, *old(self).required, *self.required);
        }
        self.follow(doc);
        doc
    }

    /// Moves to the next document.
    pub(crate) fn advance(&mut self) -> (doc: DocId)
        requires
            Scorer::RequiredOptional(*old(self)).wf(),
        ensures
            Scorer::RequiredOptional(*old(self)).stands_on(
                Scorer::RequiredOptional(*old(self)).current(),
            ),
            query::moved_to(
                Scorer::RequiredOptional(*old(self)),
                Scorer::RequiredOptional(*final(self)),
                Scorer::RequiredOptional(*old(self)).current() + 1,
            ),
            Scorer::RequiredOptional(*final(self)).stands_on(doc),
        decreases Scorer::RequiredOptional(*old(self)).tree(), 2nat,
    {
        proof {
            query::lemma_tree(Scorer::RequiredOptional(*self));
            query::lemma_has(Scorer::RequiredOptional(*self));
        }
        let doc: DocId = self.required.advance();
        proof {
            query::lemma_has(Scorer::RequiredOptional(*self));
            reveal_with_fuel(Scorer::tree, 2);
            query::lemma_stands_on(
                Scorer::RequiredOptional(*old(self)),
                old(self).required.current(),
            );
            lemma_kept_led(*self.optional, *old(self).required, *self.required);
        }
        self.follow(doc);
        doc
    }
}

/// Where `lead` moves alone, nothing is left behind.
proof fn lemma_kept_led(part: Scorer, lead: Scorer, lead_after: Scorer)
    requires
        query::kept(part, lead),
        forall|doc: DocId| #[trigger] lead_after.has(doc) ==> lead.has(doc),
    ensures
        query::kept(part, lead_after),
{
    reveal(query::kept);
}

/// Goes through the documents of `underlying` that `excluding` does not have.
pub struct ExcludeScorer {
    pub(crate) underlying: Box<Scorer>,
    pub(crate) excluding: Box<Scorer>,
}

impl ExcludeScorer {
    /// The documents of `underlying` that `excluding` does not have.
    pub(crate) fn new(underlying: Scorer, excluding: Scorer) -> (scorer: ExcludeScorer)
        requires
            underlying.wf(),
            excluding.wf(),
        ensures
            Scorer::Exclude(scorer).wf(),
            Scorer::Exclude(scorer).tree() == (ScorerTree::Exclude {
                underlying: Box::new(underlying.tree()),
                excluding: Box::new(excluding.tree()),
            }),
            forall|doc: DocId| #[trigger]
                Scorer::Exclude(scorer).has(doc) <==> underlying.has(doc) && !excluding.has(doc),
    {
        let mut scorer = ExcludeScorer {
            underlying: Box::new(underlying),
            excluding: Box::new(excluding),
        };
        let ghost before = scorer;
        let doc: DocId = scorer.underlying.doc();
        let _ = scorer.settle(doc);
        proof {
            query::lemma_has(Scorer::Exclude(before));
            reveal_with_fuel(Scorer::tree, 2);
        }
        scorer
    }

    /// Moves forwards to a document that is not excluded, from `doc`, where `underlying`
    /// stands.
    fn settle(&mut self, doc: DocId) -> (settled: DocId)
        requires
            old(self).underlying.wf(),
            old(self).excluding.wf(),
            old(self).underlying.stands_on(doc),
        ensures
            query::moved_to(Scorer::Exclude(*old(self)), Scorer::Exclude(*final(self)), 0),
            Scorer::Exclude(*final(self)).stands_on(settled),
        decreases Scorer::Exclude(*old(self)).tree(), 1nat,
    {
        let mut doc: DocId = doc;
        proof {
            query::lemma_tree(Scorer::Exclude(*self));
        }
        loop
            invariant
                self.underlying.wf(),
                self.excluding.wf(),
                self.underlying.stands_on(doc),
                Scorer::Exclude(*self).tree() == Scorer::Exclude(*old(self)).tree(),
                forall|other: DocId| #[trigger]
                    Scorer::Exclude(*self).has(other) <==> Scorer::Exclude(*old(self)).has(other),
            decreases TERMINATED - doc,
        {
            proof {
                query::lemma_tree(Scorer::Exclude(*self));
                query::lemma_has(Scorer::Exclude(*self));
                query::lemma_stands_on(*self.underlying, doc);
            }
            if doc == TERMINATED {
                return doc;
            }
            let excluded: bool = self.is_excluded(doc);
            proof {
                query::lemma_tree(Scorer::Exclude(*self));
                query::lemma_has(Scorer::Exclude(*self));
            }
            if !excluded {
                return doc;
            }
            let ghost before = *self;
            doc = self.underlying.advance();
            proof {
                query::lemma_has(Scorer::Exclude(*self));
                assert forall|other: DocId| #[trigger]
                    Scorer::Exclude(*self).has(other) <==> Scorer::Exclude(before).has(other) by {
                    assert(before.underlying.has(other) ==> other >= before.underlying.current());
                }
            }
        }
    }

    /// Asks whether the scorer `excluding` has `doc`, where `underlying` stands.
    fn is_excluded(&mut self, doc: DocId) -> (excluded: bool)
        requires
            old(self).underlying.wf(),
            old(self).excluding.wf(),
            old(self).underlying.stands_on(doc),
            doc < TERMINATED,
        ensures
            excluded == final(self).excluding.has(doc),
            final(self).excluding.wf(),
            final(self).underlying == old(self).underlying,
            Scorer::Exclude(*final(self)).tree() == Scorer::Exclude(*old(self)).tree(),
            forall|other: DocId| #[trigger]
                Scorer::Exclude(*final(self)).has(other) <==> Scorer::Exclude(*old(self)).has(
                    other,
                ),
        decreases Scorer::Exclude(*old(self)).tree(), 0nat,
    {
        proof {
            query::lemma_tree(Scorer::Exclude(*self));
            query::lemma_has(Scorer::Exclude(*self));
        }
        let here: DocId = self.excluding.doc();
        if here >= doc {
            return here == doc;
        }
        let here: DocId = self.excluding.seek(doc);
        proof {
            query::lemma_has(Scorer::Exclude(*self));
        }
        here == doc
    }

    /// The document that the scorer stands on.
    pub(crate) fn doc(&self) -> (doc: DocId)
        requires
            Scorer::Exclude(*self).wf(),
        ensures
            Scorer::Exclude(*self).stands_on(doc),
        decreases Scorer::Exclude(*self).tree(), 2nat,
    {
        proof {
            query::lemma_tree(Scorer::Exclude(*self));
            query::lemma_has(Scorer::Exclude(*self));
        }
        self.underlying.doc()
    }

    /// Moves to the first document that is not before `target`.
    pub(crate) fn seek(&mut self, target: DocId) -> (doc: DocId)
        requires
            Scorer::Exclude(*old(self)).wf(),
        ensures
            query::moved_to(
                Scorer::Exclude(*old(self)),
                Scorer::Exclude(*final(self)),
                target as int,
            ),
            Scorer::Exclude(*final(self)).stands_on(doc),
        decreases Scorer::Exclude(*old(self)).tree(), 2nat,
    {
        proof {
            query::lemma_tree(Scorer::Exclude(*self));
            query::lemma_has(Scorer::Exclude(*self));
        }
        let doc: DocId = self.underlying.seek(target);
        proof {
            query::lemma_has(Scorer::Exclude(*self));
        }
        self.settle(doc)
    }

    /// Moves to the next document.
    pub(crate) fn advance(&mut self) -> (doc: DocId)
        requires
            Scorer::Exclude(*old(self)).wf(),
        ensures
            Scorer::Exclude(*old(self)).stands_on(Scorer::Exclude(*old(self)).current()),
            query::moved_to(
                Scorer::Exclude(*old(self)),
                Scorer::Exclude(*final(self)),
                Scorer::Exclude(*old(self)).current() + 1,
            ),
            Scorer::Exclude(*final(self)).stands_on(doc),
        decreases Scorer::Exclude(*old(self)).tree(), 2nat,
    {
        proof {
            query::lemma_tree(Scorer::Exclude(*self));
            query::lemma_has(Scorer::Exclude(*self));
        }
        let doc: DocId = self.underlying.advance();
        proof {
            query::lemma_has(Scorer::Exclude(*self));
            query::lemma_stands_on(Scorer::Exclude(*old(self)), old(self).underlying.current());
        }
        self.settle(doc)
    }
}

} // verus!
