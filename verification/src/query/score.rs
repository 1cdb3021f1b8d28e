//! What the score of a document is made of.
use vstd::prelude::*;

use crate::docset::{DocId, TERMINATED};
use crate::query;
use crate::query::{ScoreCombiner, Scorer, ScorerTree};

verus! {

/// How a score is computed. The scores of leaves and the combiners are the caller's.
pub enum ScoreTree {
    /// Nothing.
    Zero,
    /// The score of the leaf with this handle.
    Leaf(u32),
    /// The sum of scores.
    Sum(Seq<ScoreTree>),
    /// Scores that a combiner makes one.
    Combined(ScoreCombiner, Seq<ScoreTree>),
}

/// How a score is computed.
pub enum ScorePlan {
    /// Nothing.
    Zero,
    /// The score of the leaf with this handle.
    Leaf(u32),
    /// The sum of scores.
    Sum(Vec<ScorePlan>),
    /// Scores that a combiner makes one.
    Combined(ScoreCombiner, Vec<ScorePlan>),
}

impl ScorePlan {
    pub open spec fn view(&self) -> ScoreTree
        decreases self,
    {
        match self {
            ScorePlan::Zero => ScoreTree::Zero,
            ScorePlan::Leaf(handle) => ScoreTree::Leaf(*handle),
            ScorePlan::Sum(parts) => ScoreTree::Sum(
                Seq::new(
                    parts@.len(),
                    |i: int|
                        if 0 <= i < parts@.len() {
                            parts@[i]@
                        } else {
                            ScoreTree::Zero
                        },
                ),
            ),
            ScorePlan::Combined(score_combiner, parts) => ScoreTree::Combined(
                *score_combiner,
                Seq::new(
                    parts@.len(),
                    |i: int|
                        if 0 <= i < parts@.len() {
                            parts@[i]@
                        } else {
                            ScoreTree::Zero
                        },
                ),
            ),
        }
    }
}

/// How several scores are computed.
pub open spec fn plan_views(plans: Seq<ScorePlan>) -> Seq<ScoreTree> {
    plans.map_values(|plan: ScorePlan| plan@)
}

impl ScorerTree {
    /// How the score of `doc` is computed: of a union, those that match the document count, of
    /// an intersection, all do.
    pub open spec fn score(self, doc: DocId) -> ScoreTree
        decreases self,
    {
        match self {
            ScorerTree::Empty => ScoreTree::Zero,
            ScorerTree::Term { leaf, .. } => ScoreTree::Leaf(leaf.handle),
            ScorerTree::Phrase { leaf, .. } => ScoreTree::Leaf(leaf.handle),
            ScorerTree::Other { leaf } => ScoreTree::Leaf(leaf.handle),
            ScorerTree::Passthrough { inner } => inner.score(doc),
            ScorerTree::Union { docsets, score_combiner, .. } => ScoreTree::Combined(
                score_combiner,
                matching_scores(docsets, doc),
            ),
            ScorerTree::Disjunction { docsets, score_combiner, .. } => ScoreTree::Combined(
                score_combiner,
                matching_scores(docsets, doc),
            ),
            ScorerTree::Intersection { docsets, .. } => ScoreTree::Sum(all_scores(docsets, doc)),
            ScorerTree::RequiredOptional { required, optional, score_combiner } =>
            ScoreTree::Combined(
                score_combiner,
                if optional.matches(doc) {
                    seq![required.score(doc), optional.score(doc)]
                } else {
                    seq![required.score(doc)]
                },
            ),
            ScorerTree::Exclude { underlying, .. } => underlying.score(doc),
            ScorerTree::JsonPaths { docsets, .. } => ScoreTree::Sum(all_scores(docsets, doc)),
            ScorerTree::JsonPathIndexes { docsets, .. } => ScoreTree::Sum(
                all_scores(docsets, doc),
            ),
        }
    }
}

/// The scores of those of several trees that match `doc`, in order.
pub open spec fn matching_scores(docsets: Seq<ScorerTree>, doc: DocId) -> Seq<ScoreTree>
    decreases docsets,
{
    if docsets.len() == 0 {
        Seq::empty()
    } else {
        let before = matching_scores(docsets.drop_last(), doc);
        if docsets.last().matches(doc) {
            before.push(docsets.last().score(doc))
        } else {
            before
        }
    }
}

/// The scores of all of several trees, in order.
pub open spec fn all_scores(docsets: Seq<ScorerTree>, doc: DocId) -> Seq<ScoreTree>
    decreases docsets,
{
    if docsets.len() == 0 {
        Seq::empty()
    } else {
        all_scores(docsets.drop_last(), doc).push(docsets.last().score(doc))
    }
}

/// What the score of a document is made of: of a union and a disjunction, the scores of those
/// parts that match it, of an intersection and a constraint those of all parts, in order.
pub proof fn lemma_score_of_parts(tree: ScorerTree, doc: DocId)
    ensures
        tree.score(doc) == match tree {
            ScorerTree::Empty => ScoreTree::Zero,
            ScorerTree::Term { leaf, .. } => ScoreTree::Leaf(leaf.handle),
            ScorerTree::Phrase { leaf, .. } => ScoreTree::Leaf(leaf.handle),
            ScorerTree::Other { leaf } => ScoreTree::Leaf(leaf.handle),
            ScorerTree::Passthrough { inner } => inner.score(doc),
            ScorerTree::Union { docsets, score_combiner, .. } => ScoreTree::Combined(
                score_combiner,
                docsets.filter(|docset: ScorerTree| docset.matches(doc)).map_values(
                    |docset: ScorerTree| docset.score(doc),
                ),
            ),
            ScorerTree::Disjunction { docsets, score_combiner, .. } => ScoreTree::Combined(
                score_combiner,
                docsets.filter(|docset: ScorerTree| docset.matches(doc)).map_values(
                    |docset: ScorerTree| docset.score(doc),
                ),
            ),
            ScorerTree::Intersection { docsets, .. } => ScoreTree::Sum(
                docsets.map_values(|docset: ScorerTree| docset.score(doc)),
            ),
            ScorerTree::RequiredOptional { required, optional, score_combiner } =>
            ScoreTree::Combined(
                score_combiner,
                if optional.matches(doc) {
                    seq![required.score(doc), optional.score(doc)]
                } else {
                    seq![required.score(doc)]
                },
            ),
            ScorerTree::Exclude { underlying, .. } => underlying.score(doc),
            ScorerTree::JsonPaths { docsets, .. } => ScoreTree::Sum(
                docsets.map_values(|docset: ScorerTree| docset.score(doc)),
            ),
            ScorerTree::JsonPathIndexes { docsets, .. } => ScoreTree::Sum(
                docsets.map_values(|docset: ScorerTree| docset.score(doc)),
            ),
        },
{
    reveal_with_fuel(ScorerTree::score, 2);
    match tree {
        ScorerTree::Union { docsets, .. } => {
            lemma_scores_of_each(docsets, doc);
        },
        ScorerTree::Disjunction { docsets, .. } => {
            lemma_scores_of_each(docsets, doc);
        },
        ScorerTree::Intersection { docsets, .. } => {
            lemma_scores_of_each(docsets, doc);
        },
        ScorerTree::JsonPaths { docsets, .. } => {
            lemma_scores_of_each(docsets, doc);
        },
        ScorerTree::JsonPathIndexes { docsets, .. } => {
            lemma_scores_of_each(docsets, doc);
        },
        _ => {},
    }
}

/// The scores of several trees are those of each, in order.
pub proof fn lemma_scores_of_each(docsets: Seq<ScorerTree>, doc: DocId)
    ensures
        all_scores(docsets, doc) == docsets.map_values(|docset: ScorerTree| docset.score(doc)),
        matching_scores(docsets, doc) == docsets.filter(
            |docset: ScorerTree| docset.matches(doc),
        ).map_values(|docset: ScorerTree| docset.score(doc)),
    decreases docsets.len(),
{
    reveal(Seq::filter);
    let kept = |docset: ScorerTree| docset.matches(doc);
    let score = |docset: ScorerTree| docset.score(doc);
    if docsets.len() > 0 {
        let rest = docsets.drop_last();
        lemma_scores_of_each(rest, doc);
        assert(all_scores(docsets, doc) =~= docsets.map_values(score));
        assert(matching_scores(docsets, doc) =~= docsets.filter(kept).map_values(score));
    } else {
        assert(all_scores(docsets, doc) =~= docsets.map_values(score));
        assert(matching_scores(docsets, doc) =~= docsets.filter(kept).map_values(score));
    }
}

/// A plan says what it holds, part by part.
pub proof fn lemma_plan_parts(plan: ScorePlan)
    ensures
        match plan {
            ScorePlan::Zero => plan@ == ScoreTree::Zero,
            ScorePlan::Leaf(handle) => plan@ == ScoreTree::Leaf(handle),
            ScorePlan::Sum(parts) => {
                &&& plan@ is Sum
                &&& plan@->Sum_0.len() == parts@.len()
                &&& forall|i: int|
                    #![trigger parts@[i]]
                    0 <= i < parts@.len() ==> plan@->Sum_0[i] == parts@[i]@
            },
            ScorePlan::Combined(score_combiner, parts) => {
                &&& plan@ is Combined
                &&& plan@->Combined_0 == score_combiner
                &&& plan@->Combined_1.len() == parts@.len()
                &&& forall|i: int|
                    #![trigger parts@[i]]
                    0 <= i < parts@.len() ==> plan@->Combined_1[i] == parts@[i]@
            },
        },
{
    reveal_with_fuel(ScorePlan::view, 2);
}

impl ScoreTree {
    /// The leaves whose scores are asked for, in order.
    pub open spec fn leaves(self) -> Seq<u32>
        decreases self,
    {
        match self {
            ScoreTree::Zero => Seq::empty(),
            ScoreTree::Leaf(handle) => seq![handle],
            ScoreTree::Sum(parts) => all_leaves(parts),
            ScoreTree::Combined(_, parts) => all_leaves(parts),
        }
    }
}

/// The leaves of several scores, one score after the other.
pub open spec fn all_leaves(parts: Seq<ScoreTree>) -> Seq<u32>
    decreases parts,
{
    if parts.len() == 0 {
        Seq::empty()
    } else {
        all_leaves(parts.drop_last()) + parts.last().leaves()
    }
}

/// The score of a constraint on JSON array paths is that of the intersection of its clauses.
pub proof fn lemma_constraint_score(docsets: Seq<ScorerTree>, num_docs: u32, doc: DocId)
    ensures
        (ScorerTree::JsonPaths { docsets, num_docs }).score(doc) == (ScorerTree::Intersection {
            docsets,
            num_docs,
        }).score(doc),
        (ScorerTree::JsonPathIndexes { docsets, num_docs }).score(doc) == (
        ScorerTree::Intersection { docsets, num_docs }).score(doc),
{
    reveal_with_fuel(ScorerTree::score, 2);
}

fn combined(score_combiner: ScoreCombiner, parts: Vec<ScorePlan>) -> (plan: ScorePlan)
    ensures
        plan@ == ScoreTree::Combined(score_combiner, plan_views(parts@)),
{
    let ghost views = plan_views(parts@);
    let plan = ScorePlan::Combined(score_combiner, parts);
    proof {
        reveal_with_fuel(ScorePlan::view, 2);
        assert(plan@->Combined_1 =~= views);
    }
    plan
}

fn sum(parts: Vec<ScorePlan>) -> (plan: ScorePlan)
    ensures
        plan@ == ScoreTree::Sum(plan_views(parts@)),
{
    let ghost views = plan_views(parts@);
    let plan = ScorePlan::Sum(parts);
    proof {
        reveal_with_fuel(ScorePlan::view, 2);
        assert(plan@->Sum_0 =~= views);
    }
    plan
}

/// Where the parts of a scorer stand that stands on `doc`.
proof fn lemma_parts_stand_on(scorer: Scorer, doc: DocId)
    requires
        scorer.wf(),
        scorer.stands_on(doc),
        doc < TERMINATED,
    ensures
        match scorer {
            Scorer::Passthrough(scorer) => scorer.inner.wf() && scorer.inner.stands_on(doc),
            Scorer::Union(scorer) => {
                &&& query::all_wf(scorer.docsets@)
                &&& query::all_kept(scorer.docsets@)
                &&& query::first_of_any(scorer.docsets@, doc)
            },
            Scorer::Disjunction(scorer) => {
                &&& query::all_wf(scorer.docsets@)
                &&& query::all_kept(scorer.docsets@)
                &&& query::first_of_any(scorer.docsets@, doc)
            },
            Scorer::Intersection(scorer) => query::all_wf(scorer.docsets@) && query::all_stand_on(
                scorer.docsets@,
                doc,
            ),
            Scorer::RequiredOptional(scorer) => {
                &&& scorer.required.wf()
                &&& scorer.required.stands_on(doc)
                &&& scorer.optional.wf()
                &&& forall|other: DocId| #[trigger] scorer.optional.has(other) ==> other >= doc
                &&& scorer.optional.has(doc) <==> scorer.optional.tree().matches(doc)
            },
            Scorer::Exclude(scorer) => scorer.underlying.wf(),
            Scorer::JsonPaths(scorer) => query::all_wf(scorer.intersection.docsets@)
                && query::all_stand_on(scorer.intersection.docsets@, doc),
            Scorer::JsonPathIndexes(scorer) => query::all_wf(scorer.intersection.docsets@)
                && query::all_stand_on(scorer.intersection.docsets@, doc),
            _ => true,
        },
{
    query::lemma_has(scorer);
    query::lemma_stands_on(scorer, doc);
    match scorer {
        Scorer::Passthrough(passthrough) => {
            assert forall|other: DocId| #[trigger] passthrough.inner.has(other) implies doc
                <= other < TERMINATED by {
                assert(scorer.has(other));
            }
        },
        Scorer::Union(union) => {
            assert(scorer.has(doc));
            assert forall|i: int, other: DocId|
                0 <= i < union.docsets@.len() && #[trigger] union.docsets@[i].has(
                    other,
                ) implies doc <= other < TERMINATED by {
                assert(query::any_has(union.docsets@, other));
                assert(scorer.has(other));
            }
        },
        Scorer::Disjunction(disjunction) => {
            let docsets = disjunction.docsets@;
            let first = choose|first: DocId|
                query::first_of_any(docsets, first) && (first < TERMINATED ==> query::num_having(
                    docsets,
                    first,
                ) >= disjunction.minimum_match_required);
            assert(scorer.has(doc));
            query::lemma_any_having(docsets, doc);
            assert(query::any_has(docsets, doc));
            assert(first <= doc);
            assert(scorer.has(first));
        },
        Scorer::Intersection(intersection) => {
            intersection.lemma_current();
        },
        Scorer::RequiredOptional(both) => {
            assert forall|other: DocId| #[trigger] both.required.has(other) implies doc <= other
                < TERMINATED by {
                assert(scorer.has(other));
            }
            query::lemma_stands_on(*both.required, doc);
            query::lemma_kept_at(*both.optional, *both.required, doc);
        },
        Scorer::JsonPaths(constraint) => {
            constraint.lemma_current();
            constraint.intersection.lemma_current();
        },
        Scorer::JsonPathIndexes(constraint) => {
            constraint.lemma_current();
            constraint.intersection.lemma_current();
        },
        _ => {},
    }
}

/// How the scores of all scorers, which stand on `doc`, are computed.
fn score_all(docsets: &Vec<Scorer>, doc: DocId) -> (plans: Vec<ScorePlan>)
    requires
        query::all_wf(docsets@),
        query::all_stand_on(docsets@, doc),
        doc < TERMINATED,
    ensures
        plan_views(plans@) == all_scores(query::trees(docsets@), doc),
    decreases query::trees(docsets@), 0nat,
{
    let mut plans: Vec<ScorePlan> = Vec::new();
    let mut at: usize = 0;
    assert(plan_views(plans@) =~= Seq::<ScoreTree>::empty());
    while at < docsets.len()
        invariant
            at <= docsets@.len(),
            query::all_wf(docsets@),
            query::all_stand_on(docsets@, doc),
            doc < TERMINATED,
            plan_views(plans@) == all_scores(query::trees(docsets@).take(at as int), doc),
        decreases docsets@.len() - at,
    {
        let ghost held = plans@;
        proof {
            assert(query::trees(docsets@)[at as int] == docsets@[at as int].tree());
            assert(decreases_to!(query::trees(docsets@) => query::trees(docsets@)[at as int]));
            let next = query::trees(docsets@).take(at + 1);
            assert(next.drop_last() =~= query::trees(docsets@).take(at as int));
            assert(next.last() == docsets@[at as int].tree());
            assert(all_scores(next, doc) == all_scores(next.drop_last(), doc).push(
                next.last().score(doc),
            ));
        }
        let plan = docsets[at].score_of(doc);
        plans.push(plan);
        assert(plan_views(plans@) =~= plan_views(held).push(plan@));
        at = at + 1;
    }
    assert(query::trees(docsets@).take(at as int) =~= query::trees(docsets@));
    plans
}

/// How the scores of those scorers are computed that have `doc`, the first document that any
/// of them has.
fn score_having(docsets: &Vec<Scorer>, doc: DocId) -> (plans: Vec<ScorePlan>)
    requires
        query::all_wf(docsets@),
        query::all_kept(docsets@),
        query::first_of_any(docsets@, doc),
        doc < TERMINATED,
    ensures
        plan_views(plans@) == matching_scores(query::trees(docsets@), doc),
    decreases query::trees(docsets@), 0nat,
{
    let mut plans: Vec<ScorePlan> = Vec::new();
    let mut at: usize = 0;
    assert(plan_views(plans@) =~= Seq::<ScoreTree>::empty());
    while at < docsets.len()
        invariant
            at <= docsets@.len(),
            query::all_wf(docsets@),
            query::all_kept(docsets@),
            query::first_of_any(docsets@, doc),
            doc < TERMINATED,
            plan_views(plans@) == matching_scores(query::trees(docsets@).take(at as int), doc),
        decreases docsets@.len() - at,
    {
        let ghost held = plans@;
        proof {
            assert(query::trees(docsets@)[at as int] == docsets@[at as int].tree());
            assert(decreases_to!(query::trees(docsets@) => query::trees(docsets@)[at as int]));
            let next = query::trees(docsets@).take(at + 1);
            assert(next.drop_last() =~= query::trees(docsets@).take(at as int));
            assert(next.last() == docsets@[at as int].tree());
            assert(matching_scores(next, doc) == if next.last().matches(doc) {
                matching_scores(next.drop_last(), doc).push(next.last().score(doc))
            } else {
                matching_scores(next.drop_last(), doc)
            });
            let lead = choose|i: int| 0 <= i < docsets@.len() && (#[trigger] docsets@[i]).has(doc);
            assert(query::kept(docsets@[at as int], docsets@[lead]));
            query::lemma_kept_at(docsets@[at as int], docsets@[lead], doc);
        }
        if docsets[at].doc() == doc {
            let plan = docsets[at].score_of(doc);
            plans.push(plan);
            assert(plan_views(plans@) =~= plan_views(held).push(plan@));
        }
        at = at + 1;
    }
    assert(query::trees(docsets@).take(at as int) =~= query::trees(docsets@));
    plans
}

impl Scorer {
    /// How the score of the current document is computed.
    pub fn score(&self) -> (plan: ScorePlan)
        requires
            self.wf(),
            self.current() < TERMINATED,
        ensures
            plan@ == self.tree().score(self.current()),
    {
        let doc: DocId = self.doc();
        self.score_of(doc)
    }

    /// How the score of `doc`, which the scorer stands on, is computed.
    fn score_of(&self, doc: DocId) -> (plan: ScorePlan)
        requires
            self.wf(),
            self.stands_on(doc),
            doc < TERMINATED,
        ensures
            plan@ == self.tree().score(doc),
        decreases self.tree(), 3nat,
    {
        proof {
            query::lemma_tree(*self);
            lemma_parts_stand_on(*self, doc);
            reveal_with_fuel(ScorerTree::score, 2);
            reveal_with_fuel(Scorer::tree, 2);
        }
        match self {
            Scorer::Empty => ScorePlan::Zero,
            Scorer::Term(scorer) => ScorePlan::Leaf(scorer.handle),
            Scorer::Phrase(scorer) => ScorePlan::Leaf(scorer.handle),
            Scorer::Other(scorer) => ScorePlan::Leaf(scorer.handle),
            Scorer::Passthrough(scorer) => scorer.inner.score_of(doc),
            Scorer::Union(scorer) => combined(
                scorer.score_combiner,
                score_having(&scorer.docsets, doc),
            ),
            Scorer::Disjunction(scorer) => combined(
                scorer.score_combiner,
                score_having(&scorer.docsets, doc),
            ),
            Scorer::Intersection(scorer) => sum(score_all(&scorer.docsets, doc)),
            Scorer::RequiredOptional(scorer) => {
                let mut parts: Vec<ScorePlan> = Vec::new();
                let required = scorer.required.score_of(doc);
                parts.push(required);
                assert(plan_views(parts@) =~= seq![required@]);
                if scorer.optional.doc() == doc {
                    let optional = scorer.optional.score_of(doc);
                    parts.push(optional);
                    assert(plan_views(parts@) =~= seq![required@, optional@]);
                }
                combined(scorer.score_combiner, parts)
            },
            Scorer::Exclude(scorer) => {
                let here: DocId = scorer.underlying.doc();
                proof {
                    query::lemma_has(*self);
                    assert(self.has(doc));
                    assert(self.has(here));
                }
                scorer.underlying.score_of(here)
            },
            Scorer::JsonPaths(scorer) => sum(score_all(&scorer.intersection.docsets, doc)),
            Scorer::JsonPathIndexes(scorer) => sum(score_all(&scorer.intersection.docsets, doc)),
        }
    }
}

} // verus!
