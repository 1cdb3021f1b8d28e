//! Moving through the documents of a scorer.
use vstd::prelude::*;

use crate::docset;
use crate::docset::{DocId, COLLECT_BLOCK_BUFFER_LEN, TERMINATED};
use crate::query;
use crate::query::boolean_query::json_constraint::JsonConstraintScorer as JsonPathIndexConstraintScorer;
use crate::query::compound_scorers::{
    DisjunctionScorer, ExcludeScorer, Intersection, RequiredOptionalScorer, UnionScorer,
};
use crate::query::json_query::JsonConstraintScorer;
use crate::query::scorer_list::{total_cost, total_size_hint};
use crate::query::{ScoreCombiner, Scorer, ScorerTree};

verus! {

impl Scorer {
    /// A leaf stands where its postings do, a constraint where its scorers do.
    pub(crate) proof fn lemma_current_of_part(self)
        requires
            self.wf(),
        ensures
            match self {
                Scorer::Empty => self.stands_on(self.current()),
                Scorer::Term(scorer) => self.stands_on(scorer.postings.current())
                    && self.current() == scorer.postings.current(),
                Scorer::Phrase(scorer) => self.stands_on(scorer.postings.current())
                    && self.current() == scorer.postings.current(),
                Scorer::Other(scorer) => self.stands_on(scorer.postings.current())
                    && self.current() == scorer.postings.current(),
                Scorer::JsonPaths(scorer) => self.stands_on(self.current()) && self.current()
                    == Scorer::Intersection(scorer.intersection).current(),
                Scorer::JsonPathIndexes(scorer) => self.stands_on(self.current())
                    && self.current() == Scorer::Intersection(scorer.intersection).current(),
                _ => true,
            },
    {
        match self {
            Scorer::Empty => {
                query::lemma_stands_on(self, TERMINATED);
            },
            Scorer::Term(scorer) => {
                scorer.postings.lemma_current();
                query::lemma_stands_on(self, scorer.postings.current());
            },
            Scorer::Phrase(scorer) => {
                scorer.postings.lemma_current();
                query::lemma_stands_on(self, scorer.postings.current());
            },
            Scorer::Other(scorer) => {
                scorer.postings.lemma_current();
                query::lemma_stands_on(self, scorer.postings.current());
            },
            Scorer::JsonPaths(scorer) => {
                scorer.lemma_current();
            },
            Scorer::JsonPathIndexes(scorer) => {
                scorer.lemma_current();
            },
            _ => {},
        }
    }

    /// The document that the scorer stands on: the first one that it has.
    pub fn doc(&self) -> (doc: DocId)
        requires
            self.wf(),
        ensures
            self.stands_on(doc),
            doc == self.current(),
        decreases self.tree(), 3nat,
    {
        proof {
            query::lemma_tree(*self);
        }
        let doc: DocId = match self {
            Scorer::Empty => TERMINATED,
            Scorer::Term(scorer) => scorer.postings.doc(),
            Scorer::Phrase(scorer) => scorer.postings.doc(),
            Scorer::Other(scorer) => scorer.postings.doc(),
            Scorer::Passthrough(scorer) => scorer.doc(),
            Scorer::Union(scorer) => scorer.doc(),
            Scorer::Disjunction(scorer) => scorer.doc(),
            Scorer::Intersection(scorer) => scorer.doc(),
            Scorer::RequiredOptional(scorer) => scorer.doc(),
            Scorer::Exclude(scorer) => scorer.doc(),
            Scorer::JsonPaths(scorer) => scorer.doc(),
            Scorer::JsonPathIndexes(scorer) => scorer.doc(),
        };
        proof {
            query::lemma_stands_on(*self, doc);
        }
        doc
    }

    /// Moves to the first document that is not before `target`, unless the scorer is there or
    /// behind it already.
    pub fn seek(&mut self, target: DocId) -> (doc: DocId)
        requires
            old(self).wf(),
        ensures
            query::moved_to(*old(self), *final(self), target as int),
            final(self).stands_on(doc),
            doc == final(self).current(),
        decreases old(self).tree(), 3nat,
    {
        proof {
            query::lemma_tree(*self);
        }
        let doc: DocId = match self {
            Scorer::Empty => TERMINATED,
            Scorer::Term(scorer) => scorer.postings.seek(target),
            Scorer::Phrase(scorer) => scorer.postings.seek(target),
            Scorer::Other(scorer) => scorer.postings.seek(target),
            Scorer::Passthrough(scorer) => scorer.seek(target),
            Scorer::Union(scorer) => scorer.seek(target),
            Scorer::Disjunction(scorer) => scorer.seek(target),
            Scorer::Intersection(scorer) => scorer.seek(target),
            Scorer::RequiredOptional(scorer) => scorer.seek(target),
            Scorer::Exclude(scorer) => scorer.seek(target),
            Scorer::JsonPaths(scorer) => scorer.seek(target),
            Scorer::JsonPathIndexes(scorer) => scorer.seek(target),
        };
        proof {
            query::lemma_stands_on(*self, doc);
        }
        doc
    }

    /// Moves to the next document.
    pub fn advance(&mut self) -> (doc: DocId)
        requires
            old(self).wf(),
        ensures
            old(self).stands_on(old(self).current()),
            query::moved_to(*old(self), *final(self), old(self).current() + 1),
            final(self).stands_on(doc),
            doc == final(self).current(),
        decreases old(self).tree(), 3nat,
    {
        proof {
            query::lemma_tree(*self);
            self.lemma_current_of_part();
        }
        let doc: DocId = match self {
            Scorer::Empty => TERMINATED,
            Scorer::Term(scorer) => scorer.postings.advance(),
            Scorer::Phrase(scorer) => scorer.postings.advance(),
            Scorer::Other(scorer) => scorer.postings.advance(),
            Scorer::Passthrough(scorer) => scorer.advance(),
            Scorer::Union(scorer) => scorer.advance(),
            Scorer::Disjunction(scorer) => scorer.advance(),
            Scorer::Intersection(scorer) => scorer.advance(),
            Scorer::RequiredOptional(scorer) => scorer.advance(),
            Scorer::Exclude(scorer) => scorer.advance(),
            Scorer::JsonPaths(scorer) => scorer.advance(),
            Scorer::JsonPathIndexes(scorer) => scorer.advance(),
        };
        proof {
            query::lemma_stands_on(*self, doc);
        }
        doc
    }

    /// How many documents there are, roughly.
    pub fn size_hint(&self) -> (size_hint: u32)
        ensures
            size_hint == self.tree().size_hint(),
        decreases self.tree(), 3nat,
    {
        proof {
            query::lemma_tree(*self);
            reveal_with_fuel(ScorerTree::size_hint, 2);
        }
        match self {
            Scorer::Empty => 0,
            Scorer::Term(scorer) => scorer.postings.size_hint(),
            Scorer::Phrase(scorer) => scorer.postings.size_hint(),
            Scorer::Other(scorer) => scorer.postings.size_hint(),
            Scorer::Passthrough(scorer) => scorer.size_hint(),
            Scorer::Union(scorer) => {
                let total: u32 = total_size_hint(&scorer.docsets);
                if total <= scorer.num_docs {
                    total
                } else {
                    scorer.num_docs
                }
            },
            Scorer::Disjunction(scorer) => total_size_hint(&scorer.docsets),
            Scorer::Intersection(scorer) => scorer.size_hint(),
            Scorer::RequiredOptional(scorer) => scorer.required.size_hint(),
            Scorer::Exclude(scorer) => scorer.underlying.size_hint(),
            Scorer::JsonPaths(scorer) => scorer.size_hint(),
            Scorer::JsonPathIndexes(scorer) => scorer.size_hint(),
        }
    }

    /// What it costs to go through the documents.
    pub fn cost(&self) -> (cost: u64)
        ensures
            cost == self.tree().cost(),
        decreases self.tree(), 3nat,
    {
        proof {
            query::lemma_tree(*self);
            reveal_with_fuel(ScorerTree::cost, 2);
        }
        match self {
            Scorer::Empty => 0,
            Scorer::Term(scorer) => scorer.postings.size_hint() as u64,
            Scorer::Phrase(scorer) => scorer.postings.size_hint() as u64,
            Scorer::Other(scorer) => scorer.postings.size_hint() as u64,
            Scorer::Passthrough(scorer) => scorer.cost(),
            Scorer::Union(scorer) => total_cost(&scorer.docsets),
            Scorer::Disjunction(scorer) => total_cost(&scorer.docsets),
            Scorer::Intersection(scorer) => scorer.cost(),
            Scorer::RequiredOptional(scorer) => scorer.required.cost(),
            Scorer::Exclude(scorer) => scorer.underlying.cost(),
            Scorer::JsonPaths(scorer) => scorer.cost(),
            Scorer::JsonPathIndexes(scorer) => scorer.cost(),
        }
    }

    /// Puts documents into `block`, from the current one on, until it is full or there are no
    /// more.
    fn fill_block(&mut self, block: &mut Vec<DocId>)
        requires
            old(self).wf(),
            old(block)@.len() == 0,
        ensures
            final(self).wf(),
            final(self).tree() == old(self).tree(),
            final(block)@.len() <= COLLECT_BLOCK_BUFFER_LEN,
            docset::ascending(final(block)@),
            forall|doc: DocId| #[trigger]
                old(self).has(doc) <==> final(block)@.contains(doc) || final(self).has(doc),
            forall|doc: DocId, later: DocId| #[trigger]
                final(block)@.contains(doc) && #[trigger] final(self).has(later) ==> doc < later,
            final(block)@.len() < COLLECT_BLOCK_BUFFER_LEN ==> final(self).stands_on(TERMINATED),
    {
        let mut doc: DocId = self.doc();
        while block.len() < COLLECT_BLOCK_BUFFER_LEN && doc != TERMINATED
            invariant
                self.wf(),
                self.tree() == old(self).tree(),
                self.stands_on(doc),
                block@.len() <= COLLECT_BLOCK_BUFFER_LEN,
                docset::ascending(block@),
                forall|other: DocId| #[trigger]
                    old(self).has(other) <==> block@.contains(other) || self.has(other),
                forall|i: int| 0 <= i < block@.len() ==> (#[trigger] block@[i]) < doc,
            decreases TERMINATED - doc,
        {
            let ghost before = *self;
            let ghost held = block@;
            proof {
                query::lemma_stands_on(*self, doc);
            }
            let next: DocId = self.advance();
            block.push(doc);
            proof {
                assert forall|other: DocId| #[trigger]
                    old(self).has(other) <==> block@.contains(other) || self.has(other) by {
                    if held.contains(other) {
                        let i = choose|i: int| 0 <= i < held.len() && held[i] == other;
                        assert(block@[i] == other);
                    }
                    assert(block@[held.len() as int] == doc);
                    if block@.contains(other) && other != doc {
                        let i = choose|i: int| 0 <= i < block@.len() && block@[i] == other;
                        assert(held[i] == other);
                    }
                }
            }
            doc = next;
        }
    }

    /// All documents that the scorer has, in full blocks but for the last.
    pub fn into_blocks(self) -> (blocks: Vec<Vec<DocId>>)
        requires
            self.wf(),
        ensures
            docset::filled(blocks@),
            docset::ascending(docset::joined(blocks@)),
            forall|doc: DocId| #[trigger]
                docset::joined(blocks@).contains(doc) <==> self.has(doc),
    {
        let mut scorer = self;
        let mut blocks: Vec<Vec<DocId>> = Vec::new();
        loop
            invariant
                scorer.wf(),
                scorer.tree() == self.tree(),
                forall|i: int|
                    0 <= i < blocks@.len() ==> (#[trigger] blocks@[i])@.len()
                        == COLLECT_BLOCK_BUFFER_LEN,
                docset::ascending(docset::joined(blocks@)),
                forall|doc: DocId| #[trigger]
                    self.has(doc) <==> docset::joined(blocks@).contains(doc) || scorer.has(doc),
                forall|doc: DocId, later: DocId| #[trigger]
                    docset::joined(blocks@).contains(doc) && #[trigger] scorer.has(later) ==> doc
                        < later,
            decreases TERMINATED - scorer.current(),
        {
            let ghost held = docset::joined(blocks@);
            let ghost before = scorer;
            let ghost listed = blocks@;
            let here: DocId = scorer.doc();
            let mut block: Vec<DocId> = Vec::new();
            scorer.fill_block(&mut block);
            let there: DocId = scorer.doc();
            let ghost added = block@;
            let full: bool = block.len() == COLLECT_BLOCK_BUFFER_LEN;
            blocks.push(block);
            proof {
                assert(blocks@.drop_last() =~= listed);
                lemma_joined(held, added, before, scorer);
                assert(docset::joined(blocks@) == held + added);
                assert forall|doc: DocId| #[trigger]
                    self.has(doc) <==> docset::joined(blocks@).contains(doc) || scorer.has(
                        doc,
                    ) by {
                    assert(before.has(doc) <==> added.contains(doc) || scorer.has(doc));
                }
                if full {
                    assert(added.contains(added[0]));
                    assert(before.has(added[0]));
                    assert(here <= added[0]);
                    if there < TERMINATED {
                        assert(scorer.has(there));
                    }
                }
            }
            if !full {
                return blocks;
            }
        }
    }

    /// No documents.
    pub fn empty() -> (scorer: Scorer)
        ensures
            scorer.fresh(),
            scorer.tree() == ScorerTree::Empty,
    {
        Scorer::Empty
    }

    /// The documents that any of `docsets` has.
    pub fn union(docsets: Vec<Scorer>, score_combiner: ScoreCombiner, num_docs: u32) -> (scorer:
        Scorer)
        requires
            query::all_fresh(docsets@),
        ensures
            scorer.fresh(),
            scorer.tree() == (ScorerTree::Union {
                docsets: query::trees(docsets@),
                score_combiner,
                num_docs,
            }),
    {
        let scorer = Scorer::Union(UnionScorer::build(docsets, score_combiner, num_docs));
        assert forall|doc: DocId| #[trigger] scorer.has(doc) <==> scorer.tree().matches(doc) by {
            query::lemma_fresh_parts(docsets@, doc);
        }
        scorer
    }

    /// The documents that at least `minimum_match_required` of `docsets` have.
    pub fn disjunction(
        docsets: Vec<Scorer>,
        score_combiner: ScoreCombiner,
        minimum_match_required: usize,
    ) -> (scorer: Scorer)
        requires
            query::all_fresh(docsets@),
            minimum_match_required > 0,
        ensures
            scorer.fresh(),
            scorer.tree() == (ScorerTree::Disjunction {
                docsets: query::trees(docsets@),
                score_combiner,
                minimum_match_required,
            }),
    {
        let scorer = Scorer::Disjunction(
            DisjunctionScorer::new(docsets, score_combiner, minimum_match_required),
        );
        assert forall|doc: DocId| #[trigger] scorer.has(doc) <==> scorer.tree().matches(doc) by {
            query::lemma_fresh_parts(docsets@, doc);
        }
        scorer
    }

    /// The documents that all of `docsets` have.
    pub fn intersection(docsets: Vec<Scorer>, num_docs: u32) -> (scorer: Scorer)
        requires
            docsets@.len() > 0,
            query::all_fresh(docsets@),
        ensures
            scorer.fresh(),
            scorer.tree() == (ScorerTree::Intersection {
                docsets: query::trees(docsets@),
                num_docs,
            }),
    {
        let scorer = Scorer::Intersection(Intersection::new(docsets, num_docs));
        assert forall|doc: DocId| #[trigger] scorer.has(doc) <==> scorer.tree().matches(doc) by {
            query::lemma_fresh_parts(docsets@, doc);
        }
        scorer
    }

    /// The documents of `required`, to whose score `optional` may add.
    pub fn required_optional(
        required: Scorer,
        optional: Scorer,
        score_combiner: ScoreCombiner,
    ) -> (scorer: Scorer)
        requires
            required.fresh(),
            optional.fresh(),
        ensures
            scorer.fresh(),
            scorer.tree() == (ScorerTree::RequiredOptional {
                required: Box::new(required.tree()),
                optional: Box::new(optional.tree()),
                score_combiner,
            }),
    {
        Scorer::RequiredOptional(RequiredOptionalScorer::new(required, optional, score_combiner))
    }

    /// The documents of `underlying` that `excluding` does not have.
    pub fn exclude(underlying: Scorer, excluding: Scorer) -> (scorer: Scorer)
        requires
            underlying.fresh(),
            excluding.fresh(),
        ensures
            scorer.fresh(),
            scorer.tree() == (ScorerTree::Exclude {
                underlying: Box::new(underlying.tree()),
                excluding: Box::new(excluding.tree()),
            }),
    {
        Scorer::Exclude(ExcludeScorer::new(underlying, excluding))
    }

    /// The documents that all of `docsets` have, and in which they agree on a JSON array path.
    pub fn json_paths(docsets: Vec<Scorer>, num_docs: u32) -> (scorer: Scorer)
        requires
            docsets@.len() > 0,
            query::all_fresh(docsets@),
        ensures
            scorer.fresh(),
            scorer.tree() == (ScorerTree::JsonPaths {
                docsets: query::trees(docsets@),
                num_docs,
            }),
    {
        let scorer = Scorer::JsonPaths(JsonConstraintScorer::new(docsets, num_docs));
        assert forall|doc: DocId| #[trigger] scorer.has(doc) <==> scorer.tree().matches(doc) by {
            query::lemma_fresh_parts(docsets@, doc);
        }
        scorer
    }

    /// The documents that all of `docsets` have, and in which they agree on a JSON array path
    /// id.
    pub fn json_path_indexes(docsets: Vec<Scorer>, num_docs: u32) -> (scorer: Scorer)
        requires
            docsets@.len() > 0,
            query::all_fresh(docsets@),
        ensures
            scorer.fresh(),
            scorer.tree() == (ScorerTree::JsonPathIndexes {
                docsets: query::trees(docsets@),
                num_docs,
            }),
    {
        let scorer = Scorer::JsonPathIndexes(
            JsonPathIndexConstraintScorer::new(docsets, num_docs),
        );
        assert forall|doc: DocId| #[trigger] scorer.has(doc) <==> scorer.tree().matches(doc) by {
            query::lemma_fresh_parts(docsets@, doc);
        }
        scorer
    }
}

/// Documents, and later ones behind them.
proof fn lemma_joined(held: Seq<DocId>, added: Seq<DocId>, before: Scorer, after: Scorer)
    requires
        docset::ascending(held),
        docset::ascending(added),
        forall|doc: DocId, later: DocId| #[trigger]
            held.contains(doc) && #[trigger] before.has(later) ==> doc < later,
        forall|doc: DocId, later: DocId| #[trigger]
            added.contains(doc) && #[trigger] after.has(later) ==> doc < later,
        forall|doc: DocId| #[trigger]
            before.has(doc) <==> added.contains(doc) || after.has(doc),
    ensures
        docset::ascending(held + added),
        forall|doc: DocId| #[trigger]
            (held + added).contains(doc) <==> held.contains(doc) || added.contains(doc),
        forall|doc: DocId, later: DocId| #[trigger]
            (held + added).contains(doc) && #[trigger] after.has(later) ==> doc < later,
{
    let all = held + added;
    assert forall|doc: DocId| #[trigger]
        all.contains(doc) <==> held.contains(doc) || added.contains(doc) by {
        if held.contains(doc) {
            let i = choose|i: int| 0 <= i < held.len() && held[i] == doc;
            assert(all[i] == doc);
        }
        if added.contains(doc) {
            let i = choose|i: int| 0 <= i < added.len() && added[i] == doc;
            assert(all[held.len() + i] == doc);
        }
    }
    assert forall|i: int, j: int| 0 <= i < j < all.len() implies all[i] < all[j] by {
        if i < held.len() && j >= held.len() {
            assert(held.contains(held[i]));
            assert(added.contains(added[j - held.len()]));
            assert(before.has(all[j]));
        }
    }
    assert forall|doc: DocId, later: DocId| #[trigger]
        all.contains(doc) && #[trigger] after.has(later) implies doc < later by {
        assert(before.has(later));
    }
}

} // verus!
