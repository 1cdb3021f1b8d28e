//! The weight of a boolean query.
use rustc_hash::FxHashMap;
use vstd::prelude::*;

use crate::docset;
use crate::docset::{DocId, TERMINATED};
use crate::query;
use crate::query::boolean_query;
use crate::query::boolean_query::{Combination, Occur, SpecializedTree};
use crate::query::leaf_scorers::{FreqReadingOption, JsonConstraintKey, TermScorer};
use crate::query::weight;
use crate::query::weight::{
    Explanation, ExplanationKind, SearchError, SegmentReader, Weight,
};
use crate::query::{ScoreCombiner, Scorer, ScorerTree};

verus! {

/// `rustc_hash::FxBuildHasher`, which makes the hashers of an `FxHashMap`.
#[verifier::external_type_specification]
#[verifier::external_body]
pub struct ExFxBuildHasher(rustc_hash::FxBuildHasher);

/// `HashMap::remove` on an `FxHashMap`: takes the group of `key` out of the map and gives it
/// back, where there is one.
#[verifier::external_body]
fn remove_group(
    groups: &mut FxHashMap<JsonConstraintKey, Vec<Scorer>>,
    key: &JsonConstraintKey,
) -> (group: Option<Vec<Scorer>>)
    ensures
        final(groups)@ == old(groups)@.remove(*key),
        match group {
            Some(group) => old(groups)@.contains_key(*key) && group == old(groups)@[*key],
            None => !old(groups)@.contains_key(*key),
        },
{
    groups.remove(key)
}

/// `HashMap::insert` on an `FxHashMap`: the map then has `group` under `key`, and is otherwise
/// as it was.
#[verifier::external_body]
fn insert_group(
    groups: &mut FxHashMap<JsonConstraintKey, Vec<Scorer>>,
    key: JsonConstraintKey,
    group: Vec<Scorer>,
)
    ensures
        final(groups)@ == old(groups)@.insert(key, group),
{
    groups.insert(key, group);
}

/// `HashMap::into_iter` on an `FxHashMap`: the entries of the map, each of them once. Nothing
/// is said of their order.
#[verifier::external_body]
fn into_groups(groups: FxHashMap<JsonConstraintKey, Vec<Scorer>>) -> (entries: Vec<
    (JsonConstraintKey, Vec<Scorer>),
>)
    ensures
        forall|i: int, j: int| 0 <= i < j < entries@.len() ==> entries@[i].0 != entries@[j].0,
        forall|i: int|
            0 <= i < entries@.len() ==> groups@.contains_key((#[trigger] entries@[i]).0)
                && groups@[entries@[i].0] == entries@[i].1,
        forall|key: JsonConstraintKey| #[trigger]
            groups@.contains_key(key) ==> exists|i: int|
                0 <= i < entries@.len() && (#[trigger] entries@[i]).0 == key,
{
    Vec::from_iter(groups)
}

/// A scorer, or terms whose union is still to be made one.
pub enum SpecializedScorer {
    /// Terms whose frequencies are read.
    TermUnion(Vec<TermScorer>),
    /// Any scorer.
    Other(Scorer),
}

impl SpecializedScorer {
    /// What the scorer goes through.
    pub open spec fn tree(self) -> SpecializedTree {
        match self {
            SpecializedScorer::TermUnion(scorers) => SpecializedTree::TermUnion(
                scorers@.map_values(|scorer: TermScorer| Scorer::Term(scorer).tree()),
            ),
            SpecializedScorer::Other(scorer) => SpecializedTree::Other(scorer.tree()),
        }
    }

    /// True when no scorer has moved yet.
    pub open spec fn fresh(self) -> bool {
        match self {
            SpecializedScorer::TermUnion(scorers) => forall|i: int|
                0 <= i < scorers@.len() ==> Scorer::Term(#[trigger] scorers@[i]).fresh(),
            SpecializedScorer::Other(scorer) => scorer.fresh(),
        }
    }
}

/// Puts the scorers of each JSON field together, so that they have to agree on an array
/// element.
fn enforce_json_constraints(scorers: Vec<Scorer>, num_docs: u32) -> (constrained: Vec<Scorer>)
    requires
        query::all_fresh(scorers@),
    ensures
        query::all_fresh(constrained@),
        exists|keys: Seq<JsonConstraintKey>| #[trigger]
            boolean_query::is_key_order(query::trees(scorers@), keys) && query::trees(
                constrained@,
            ) == boolean_query::constrained(query::trees(scorers@), keys, num_docs),
{
    let ghost all = query::trees(scorers@);
    let mut grouped: FxHashMap<JsonConstraintKey, Vec<Scorer>> = FxHashMap::default();
    let mut others: Vec<Scorer> = Vec::new();
    proof {
        reveal(Seq::filter);
        assert(query::trees(scorers@.take(0)) =~= Seq::<ScorerTree>::empty());
        assert(query::trees(others@) =~= Seq::<ScorerTree>::empty());
    }
    for scorer in it: scorers.into_iter()
        invariant
            it.seq() == scorers@,
            query::all_fresh(scorers@),
            query::all_fresh(others@),
            query::trees(others@) == boolean_query::keyed(
                query::trees(scorers@.take(it.index() as int)),
                None,
            ),
            forall|key: JsonConstraintKey| #[trigger]
                grouped@.contains_key(key) <==> boolean_query::keyed(
                    query::trees(scorers@.take(it.index() as int)),
                    Some(key),
                ).len() > 0,
            forall|key: JsonConstraintKey| #[trigger]
                grouped@.contains_key(key) ==> query::all_fresh(grouped@[key]@)
                    && query::trees(grouped@[key]@) == boolean_query::keyed(
                    query::trees(scorers@.take(it.index() as int)),
                    Some(key),
                ),
    {
        let ghost done = query::trees(scorers@.take(it.index() as int));
        let ghost before = grouped@;
        let ghost held = others@;
        proof {
            assert(scorer == scorers@[it.index() as int]);
            assert(query::trees(scorers@.take(it.index() + 1)) =~= done.push(scorer.tree()));
            lemma_keyed_push(done, scorer.tree());
        }
        match try_into_json_path_scorer(scorer) {
            Ok((key, json_scorer)) => {
                let mut group: Vec<Scorer> = match remove_group(&mut grouped, &key) {
                    Some(group) => group,
                    None => Vec::new(),
                };
                let ghost fellows = group@;
                group.push(json_scorer);
                proof {
                    assert(query::trees(fellows) =~= boolean_query::keyed(done, Some(key)));
                    assert(query::trees(group@) =~= query::trees(fellows).push(scorer.tree()));
                    assert(query::all_fresh(group@));
                }
                insert_group(&mut grouped, key, group);
            },
            Err(original) => {
                others.push(original);
                proof {
                    assert(query::trees(others@) =~= query::trees(held).push(scorer.tree()));
                }
            },
        }
    }
    proof {
        assert(scorers@.take(scorers@.len() as int) =~= scorers@);
    }
    let ghost groups = grouped@;
    let entries = into_groups(grouped);
    let ghost listed = entries@;
    let ghost keys = listed.map_values(|entry: (JsonConstraintKey, Vec<Scorer>)| entry.0);
    let ghost as_one = |key: JsonConstraintKey|
        boolean_query::group_tree(boolean_query::keyed(all, Some(key)), num_docs);
    proof {
        assert forall|key: JsonConstraintKey| #[trigger]
            keys.contains(key) <==> boolean_query::keyed(all, Some(key)).len() > 0 by {
            if keys.contains(key) {
                let i = choose|i: int| 0 <= i < keys.len() && keys[i] == key;
                assert(groups.contains_key(listed[i].0));
            }
            if boolean_query::keyed(all, Some(key)).len() > 0 {
                assert(groups.contains_key(key));
                let i = choose|i: int| 0 <= i < listed.len() && (#[trigger] listed[i]).0 == key;
                assert(keys[i] == key);
            }
        }
        assert(boolean_query::is_key_order(all, keys));
        assert(keys.take(0).map_values(as_one) =~= Seq::<ScorerTree>::empty());
    }
    for entry in it: entries.into_iter()
        invariant
            it.seq() == listed,
            keys == listed.map_values(|entry: (JsonConstraintKey, Vec<Scorer>)| entry.0),
            query::all_fresh(others@),
            query::trees(others@) == boolean_query::keyed(all, None) + keys.take(
                it.index() as int,
            ).map_values(as_one),
            forall|key: JsonConstraintKey| #[trigger] as_one(key) == boolean_query::group_tree(
                boolean_query::keyed(all, Some(key)),
                num_docs,
            ),
            forall|i: int|
                0 <= i < listed.len() ==> query::all_fresh((#[trigger] listed[i]).1@)
                    && query::trees(listed[i].1@) == boolean_query::keyed(all, Some(listed[i].0))
                    && listed[i].1@.len() > 0,
    {
        let ghost held = others@;
        let (key, mut group) = entry;
        proof {
            let at = it.index() as int;
            assert((key, group) == listed[at]);
            assert(keys[at] == key);
            assert(keys.take(at + 1).map_values(as_one) =~= keys.take(at).map_values(
                as_one,
            ).push(as_one(key)));
            assert(query::trees(group@).len() == group@.len());
        }
        if group.len() <= 1 {
            if let Some(single) = group.pop() {
                proof {
                    assert(listed[it.index() as int].1@[0] == single);
                    assert(query::trees(listed[it.index() as int].1@)[0] == single.tree());
                }
                others.push(single);
                assert(query::trees(others@) =~= query::trees(held).push(as_one(key)));
            }
        } else {
            others.push(build_json_constraint_scorer(group, num_docs));
            assert(query::trees(others@) =~= query::trees(held).push(as_one(key)));
        }
    }
    proof {
        assert(keys.take(keys.len() as int) =~= keys);
        assert(query::trees(others@) =~= boolean_query::constrained(all, keys, num_docs));
    }
    others
}

/// One clause more.
proof fn lemma_keyed_push(docsets: Seq<ScorerTree>, tree: ScorerTree)
    ensures
        forall|key: Option<JsonConstraintKey>| #[trigger]
            boolean_query::keyed(docsets.push(tree), key) == if boolean_query::json_key(tree)
                == key {
                boolean_query::keyed(docsets, key).push(tree)
            } else {
                boolean_query::keyed(docsets, key)
            },
{
    reveal(Seq::filter);
    assert(docsets.push(tree).drop_last() =~= docsets);
}

/// The scorers of a JSON field, which have to agree on a path id.
fn build_json_constraint_scorer(json_scorers: Vec<Scorer>, num_docs: u32) -> (scorer: Scorer)
    requires
        json_scorers@.len() > 0,
        query::all_fresh(json_scorers@),
    ensures
        scorer.fresh(),
        scorer.tree() == (ScorerTree::JsonPathIndexes {
            docsets: query::trees(json_scorers@),
            num_docs,
        }),
{
    Scorer::json_path_indexes(json_scorers, num_docs)
}

/// Gives the scorer back, with its key where it is a term or a phrase that has one.
fn try_into_json_path_scorer(scorer: Scorer) -> (keyed: Result<
    (JsonConstraintKey, Scorer),
    Scorer,
>)
    ensures
        match keyed {
            Ok((key, json_scorer)) => json_scorer == scorer && boolean_query::json_key(
                scorer.tree(),
            ) == Some(key),
            Err(original) => original == scorer && boolean_query::json_key(scorer.tree())
                is None,
        },
{
    match scorer {
        Scorer::Term(term_scorer) => {
            if let Some(key) = term_scorer.json_constraint_key() {
                Ok((key, Scorer::Term(term_scorer)))
            } else {
                Err(Scorer::Term(term_scorer))
            }
        },
        Scorer::Phrase(phrase_scorer) => {
            if let Some(key) = phrase_scorer.json_constraint_key() {
                Ok((key, Scorer::Phrase(phrase_scorer)))
            } else {
                Err(Scorer::Phrase(phrase_scorer))
            }
        },
        scorer => Err(scorer),
    }
}

/// The documents that at least `minimum_match_required` of `scorers` have.
fn scorer_disjunction(
    scorers: Vec<Scorer>,
    score_combiner: ScoreCombiner,
    minimum_match_required: usize,
) -> (scorer: Scorer)
    requires
        scorers@.len() > 0,
        minimum_match_required > 1,
        query::all_fresh(scorers@),
    ensures
        scorer.fresh(),
        scorer.tree() == boolean_query::disjunction_tree(
            query::trees(scorers@),
            score_combiner,
            minimum_match_required,
        ),
{
    if scorers.len() == 1 {
        return single_scorer(scorers);
    }
    Scorer::disjunction(scorers, score_combiner, minimum_match_required)
}

/// The only one of `scorers`.
fn single_scorer(scorers: Vec<Scorer>) -> (scorer: Scorer)
    requires
        scorers@.len() == 1,
    ensures
        scorer == scorers@[0],
        query::trees(scorers@)[0] == scorer.tree(),
{
    let mut scorers = scorers;
    scorers.swap_remove(0)
}

/// The documents that all of `scorers` have.
fn intersect_scorers(scorers: Vec<Scorer>, num_docs: u32) -> (scorer: Scorer)
    requires
        query::all_fresh(scorers@),
    ensures
        scorer.fresh(),
        scorer.tree() == boolean_query::intersect_tree(query::trees(scorers@), num_docs),
{
    if scorers.len() == 0 {
        return Scorer::Empty;
    }
    if scorers.len() == 1 {
        return single_scorer(scorers);
    }
    Scorer::intersection(scorers, num_docs)
}

/// The documents that any of `scorers` has. `num_docs` is the number of documents in the
/// segment.
fn scorer_union(scorers: Vec<Scorer>, score_combiner: ScoreCombiner, num_docs: u32) -> (scorer:
    SpecializedScorer)
    requires
        scorers@.len() > 0,
        query::all_fresh(scorers@),
    ensures
        scorer.fresh(),
        scorer.tree() == boolean_query::union_tree(
            query::trees(scorers@),
            score_combiner,
            num_docs,
        ),
{
    if scorers.len() == 1 {
        return SpecializedScorer::Other(single_scorer(scorers));
    }
    if all_read_freqs(&scorers) {
        // Pruning by blocks is only to be had where frequencies are read.
        SpecializedScorer::TermUnion(into_term_scorers(scorers))
    } else {
        SpecializedScorer::Other(Scorer::union(scorers, score_combiner, num_docs))
    }
}

/// Asks whether all of `scorers` are terms whose frequencies are read.
fn all_read_freqs(scorers: &Vec<Scorer>) -> (all: bool)
    ensures
        all == boolean_query::reads_freqs(query::trees(scorers@)),
{
    let ghost trees = query::trees(scorers@);
    let mut at: usize = 0;
    while at < scorers.len()
        invariant
            at <= scorers@.len(),
            trees == query::trees(scorers@),
            forall|i: int|
                0 <= i < at ==> (#[trigger] trees[i]) is Term
                    && trees[i]->Term_freq_reading_option == FreqReadingOption::ReadFreq,
        decreases scorers@.len() - at,
    {
        assert(trees[at as int] == scorers@[at as int].tree());
        match &scorers[at] {
            Scorer::Term(scorer) => {
                if scorer.freq_reading_option() != FreqReadingOption::ReadFreq {
                    return false;
                }
            },
            _ => {
                return false;
            },
        }
        at = at + 1;
    }
    true
}

/// Takes terms out of scorers that are nothing else.
fn into_term_scorers(scorers: Vec<Scorer>) -> (term_scorers: Vec<TermScorer>)
    requires
        boolean_query::reads_freqs(query::trees(scorers@)),
    ensures
        term_scorers@.len() == scorers@.len(),
        forall|i: int|
            0 <= i < scorers@.len() ==> scorers@[i] == Scorer::Term(#[trigger] term_scorers@[i]),
        term_scorers@.map_values(|scorer: TermScorer| Scorer::Term(scorer).tree()) == query::trees(scorers@),
{
    let mut term_scorers: Vec<TermScorer> = Vec::new();
    for scorer in it: scorers.into_iter()
        invariant
            it.seq() == scorers@,
            boolean_query::reads_freqs(query::trees(scorers@)),
            term_scorers@.len() == it.index(),
            forall|i: int|
                0 <= i < it.index() ==> scorers@[i] == Scorer::Term(
                    #[trigger] term_scorers@[i],
                ),
    {
        assert(query::trees(scorers@)[it.index() as int] == scorer.tree());
        if let Scorer::Term(term_scorer) = scorer {
            term_scorers.push(term_scorer);
        }
    }
    assert(term_scorers@.map_values(|scorer: TermScorer| Scorer::Term(scorer).tree()) =~= query::trees(
        scorers@,
    ));
    term_scorers
}

/// Makes a union of terms a scorer.
fn into_box_scorer(scorer: SpecializedScorer, score_combiner: ScoreCombiner, num_docs: u32) -> (
boxed: Scorer)
    requires
        scorer.fresh(),
    ensures
        boxed.fresh(),
        boxed.tree() == boolean_query::boxed_tree(scorer.tree(), score_combiner, num_docs),
{
    match scorer {
        SpecializedScorer::TermUnion(term_scorers) => {
            let ghost terms = term_scorers@;
            let mut scorers: Vec<Scorer> = Vec::new();
            for term_scorer in it: term_scorers.into_iter()
                invariant
                    it.seq() == terms,
                    forall|i: int|
                        0 <= i < terms.len() ==> Scorer::Term(#[trigger] terms[i]).fresh(),
                    scorers@.len() == it.index(),
                    forall|i: int|
                        0 <= i < it.index() ==> (#[trigger] scorers@[i]) == Scorer::Term(
                            terms[i],
                        ),
            {
                scorers.push(Scorer::Term(term_scorer));
            }
            assert(query::trees(scorers@) =~= terms.map_values(
                |scorer: TermScorer| Scorer::Term(scorer).tree(),
            ));
            Scorer::union(scorers, score_combiner, num_docs)
        },
        SpecializedScorer::Other(scorer) => scorer,
    }
}

/// The weight of a boolean query.
pub struct BooleanWeight {
    /// The clauses.
    pub weights: Vec<(Occur, Weight)>,
    /// How many clauses that may match have to.
    pub minimum_number_should_match: usize,
    /// True when scores are wanted.
    pub scoring_enabled: bool,
    /// How the scores of the clauses become one.
    pub score_combiner: ScoreCombiner,
}

impl BooleanWeight {
    /// What each clause has to do with a match.
    pub open spec fn occurs(self) -> Seq<Occur> {
        self.weights@.map_values(|clause: (Occur, Weight)| clause.0)
    }

    /// How the clauses are put together.
    pub open spec fn combination(self, score_combiner: ScoreCombiner, num_docs: u32) -> Combination {
        Combination {
            minimum_number_should_match: self.minimum_number_should_match,
            scoring_enabled: self.scoring_enabled,
            weight_combiner: self.score_combiner,
            score_combiner,
            num_docs,
        }
    }

    /// The combiner for a scorer: none where no scores are wanted.
    pub open spec fn combiner(self) -> ScoreCombiner {
        if self.scoring_enabled {
            self.score_combiner
        } else {
            ScoreCombiner::DoNothing
        }
    }

    /// True when `tree` is a scorer for clauses that go through `docsets`.
    pub open spec fn combines(
        self,
        docsets: Seq<ScorerTree>,
        num_docs: u32,
        tree: ScorerTree,
    ) -> bool {
        exists|specialized: SpecializedTree| #[trigger]
            self.combination(self.combiner(), num_docs).combines(
                self.occurs(),
                docsets,
                specialized,
            ) && tree == boolean_query::boxed_tree(specialized, self.combiner(), num_docs)
    }

    /// True when clauses that go through `docsets` match `doc` together.
    pub open spec fn accepts(self, docsets: Seq<ScorerTree>, num_docs: u32, doc: DocId) -> bool {
        self.combination(self.combiner(), num_docs).accepts(
            boolean_query::of_occur(self.occurs(), docsets, Occur::Must),
            boolean_query::of_occur(self.occurs(), docsets, Occur::Should),
            boolean_query::of_occur(self.occurs(), docsets, Occur::MustNot),
            doc,
        )
    }

    /// True when the clauses can be put together as `specialized`.
    pub open spec fn complex_builds(
        self,
        reader: SegmentReader,
        score_combiner: ScoreCombiner,
        specialized: SpecializedTree,
    ) -> bool {
        exists|docsets: Seq<ScorerTree>| #[trigger]
            weight::all_clauses_build(self.weights@, reader, docsets) && self.combination(
                score_combiner,
                reader.num_docs,
            ).combines(self.occurs(), docsets, specialized)
    }

    /// True when the clauses can be put together as `tree`, with `union_combiner` for a union
    /// of terms.
    pub open spec fn visits(
        self,
        reader: SegmentReader,
        score_combiner: ScoreCombiner,
        union_combiner: ScoreCombiner,
        tree: ScorerTree,
    ) -> bool {
        exists|specialized: SpecializedTree| #[trigger]
            self.complex_builds(reader, score_combiner, specialized) && tree
                == boolean_query::boxed_tree(specialized, union_combiner, reader.num_docs)
    }

    /// A combination of clauses. At least one of those that may match has to.
    pub fn new(
        weights: Vec<(Occur, Weight)>,
        scoring_enabled: bool,
        score_combiner: ScoreCombiner,
    ) -> (weight: BooleanWeight)
        ensures
            weight.weights@ == weights@,
            weight.minimum_number_should_match == 1,
            weight.scoring_enabled == scoring_enabled,
            weight.score_combiner == score_combiner,
    {
        BooleanWeight { weights, minimum_number_should_match: 1, scoring_enabled, score_combiner }
    }

    /// A combination of clauses, with the number of those that have to match among those that
    /// may.
    pub fn with_minimum_number_should_match(
        weights: Vec<(Occur, Weight)>,
        minimum_number_should_match: usize,
        scoring_enabled: bool,
        score_combiner: ScoreCombiner,
    ) -> (weight: BooleanWeight)
        ensures
            weight.weights@ == weights@,
            weight.minimum_number_should_match == minimum_number_should_match,
            weight.scoring_enabled == scoring_enabled,
            weight.score_combiner == score_combiner,
    {
        BooleanWeight { weights, minimum_number_should_match, scoring_enabled, score_combiner }
    }

    /// A scorer for `reader`, on its first document.
    pub fn scorer(&self, reader: &SegmentReader) -> (scorer: Result<Scorer, SearchError>)
        ensures
            match scorer {
                Ok(scorer) => {
                    &&& scorer.fresh()
                    &&& Weight::Boolean(*self).failure(*reader) is None
                    &&& Weight::Boolean(*self).builds(*reader, scorer.tree())
                },
                Err(error) => Weight::Boolean(*self).failure(*reader) == Some(error),
            },
        decreases self, 2nat,
    {
        if self.weights.len() == 0 {
            return Ok(Scorer::Empty);
        }
        if self.weights.len() == 1 {
            let (occur, weight) = &self.weights[0];
            if *occur == Occur::MustNot {
                return Ok(Scorer::Empty);
            }
            proof {
                let clauses = self.weights@;
                assert(clauses.last() == clauses[0]);
                assert(weight::first_clause_failure(clauses.drop_last(), *reader) is None);
                assert(weight::first_clause_failure(clauses, *reader) == clauses[0].1.failure(
                    *reader,
                ));
            }
            return weight.scorer(reader);
        }
        let num_docs: u32 = reader.num_docs();
        let score_combiner = if self.scoring_enabled {
            self.score_combiner
        } else {
            ScoreCombiner::DoNothing
        };
        match self.complex_scorer(reader, score_combiner) {
            Ok(specialized_scorer) => {
                let ghost specialized = specialized_scorer.tree();
                let scorer = into_box_scorer(specialized_scorer, score_combiner, num_docs);
                proof {
                    let docsets = choose|docsets: Seq<ScorerTree>| #[trigger]
                        weight::all_clauses_build(self.weights@, *reader, docsets)
                            && self.combination(score_combiner, num_docs).combines(
                            self.occurs(),
                            docsets,
                            specialized,
                        );
                    assert(self.combines(docsets, num_docs, scorer.tree()));
                    assert(weight::first_clause_failure(self.weights@, *reader) is None);
                }
                Ok(scorer)
            },
            Err(error) => Err(error),
        }
    }

    /// Says why `doc` matches.
    pub fn explain(&self, reader: &SegmentReader, doc: DocId) -> (explanation: Result<
        Explanation,
        SearchError,
    >)
        requires
            doc != TERMINATED,
        ensures
            match explanation {
                Ok(explanation) => Weight::Boolean(*self).explained_by(*reader, doc, explanation),
                Err(error) => Weight::Boolean(*self).refuses(*reader, doc, error),
            },
        decreases self, 0nat,
    {
        let mut scorer = match self.scorer(reader) {
            Ok(scorer) => scorer,
            Err(error) => {
                return Err(error);
            },
        };
        let ghost first = scorer;
        let found: DocId = scorer.seek(doc);
        assert(scorer.has(doc) <==> first.has(doc));
        if found != doc {
            return Err(SearchError::DoesNotMatch(doc));
        }
        if !self.scoring_enabled {
            return Ok(
                Explanation {
                    kind: ExplanationKind::BooleanWithoutScoring,
                    scorer: None,
                    details: Vec::new(),
                },
            );
        }
        let mut details: Vec<Explanation> = Vec::new();
        let mut at: usize = 0;
        while at < self.weights.len()
            invariant
                at <= self.weights@.len(),
                doc != TERMINATED,
                weight::clause_details_explain(
                    self.weights@.take(at as int),
                    *reader,
                    doc,
                    details@,
                ),
            decreases self.weights@.len() - at,
        {
            let ghost before = details@;
            proof {
                let next = self.weights@.take(at + 1);
                assert(next.drop_last() =~= self.weights@.take(at as int));
                assert(next.last() == self.weights@[at as int]);
            }
            let (occur, subweight) = &self.weights[at];
            if is_positive_occur(*occur) {
                if let Ok(child_explanation) = subweight.explain(reader, doc) {
                    details.push(child_explanation);
                    assert(details@.drop_last() =~= before);
                }
            }
            at = at + 1;
        }
        assert(self.weights@.take(at as int) =~= self.weights@);
        Ok(Explanation { kind: ExplanationKind::BooleanClause, scorer: Some(scorer), details })
    }

    /// The scorer whose documents are to be visited with their scores.
    pub fn for_each(&self, reader: &SegmentReader) -> (scorer: Result<Scorer, SearchError>)
        ensures
            match scorer {
                Ok(scorer) => {
                    &&& scorer.fresh()
                    &&& weight::first_clause_failure(self.weights@, *reader) is None
                    &&& self.visits(
                        *reader,
                        self.score_combiner,
                        self.score_combiner,
                        scorer.tree(),
                    )
                },
                Err(error) => weight::first_clause_failure(self.weights@, *reader) == Some(error),
            },
    {
        match self.complex_scorer(reader, self.score_combiner) {
            Ok(scorer) => Ok(into_box_scorer(scorer, self.score_combiner, reader.num_docs())),
            Err(error) => Err(error),
        }
    }

    /// The documents to be visited without scores, in full blocks but for the last.
    pub fn for_each_no_score(&self, reader: &SegmentReader) -> (blocks: Result<
        Vec<Vec<DocId>>,
        SearchError,
    >)
        ensures
            match blocks {
                Ok(blocks) => {
                    &&& weight::first_clause_failure(self.weights@, *reader) is None
                    &&& docset::filled(blocks@)
                    &&& docset::ascending(docset::joined(blocks@))
                    &&& exists|tree: ScorerTree| #[trigger]
                        self.visits(
                            *reader,
                            ScoreCombiner::DoNothing,
                            self.score_combiner,
                            tree,
                        ) && forall|doc: DocId| #[trigger]
                            docset::joined(blocks@).contains(doc) <==> tree.matches(doc)
                },
                Err(error) => weight::first_clause_failure(self.weights@, *reader) == Some(error),
            },
    {
        match self.complex_scorer(reader, ScoreCombiner::DoNothing) {
            Ok(scorer) => {
                let ghost specialized = scorer.tree();
                let scorer = into_box_scorer(scorer, self.score_combiner, reader.num_docs());
                let ghost tree = scorer.tree();
                let ghost first = scorer;
                let blocks = scorer.into_blocks();
                proof {
                    assert(self.complex_builds(*reader, ScoreCombiner::DoNothing, specialized));
                    assert(self.visits(
                        *reader,
                        ScoreCombiner::DoNothing,
                        self.score_combiner,
                        tree,
                    ));
                    assert forall|doc: DocId| #[trigger]
                        docset::joined(blocks@).contains(doc) <==> tree.matches(doc) by {
                        assert(first.has(doc) <==> tree.matches(doc));
                    }
                }
                Ok(blocks)
            },
            Err(error) => Err(error),
        }
    }

    /// The scorer whose documents are to be visited where their scores are high enough. A
    /// union of terms is left as it is, because it can be pruned by blocks.
    pub fn for_each_pruning(&self, reader: &SegmentReader) -> (scorer: Result<
        SpecializedScorer,
        SearchError,
    >)
        ensures
            match scorer {
                Ok(scorer) => {
                    &&& scorer.fresh()
                    &&& weight::first_clause_failure(self.weights@, *reader) is None
                    &&& self.complex_builds(*reader, self.score_combiner, scorer.tree())
                },
                Err(error) => weight::first_clause_failure(self.weights@, *reader) == Some(error),
            },
    {
        self.complex_scorer(reader, self.score_combiner)
    }

    /// Puts the clauses together, where those that have to match are `must`.
    fn combine(
        &self,
        must: Vec<Scorer>,
        should: Vec<Scorer>,
        must_not: Vec<Scorer>,
        score_combiner: ScoreCombiner,
        num_docs: u32,
    ) -> (scorer: SpecializedScorer)
        requires
            query::all_fresh(must@),
            query::all_fresh(should@),
            query::all_fresh(must_not@),
        ensures
            scorer.fresh(),
            scorer.tree() == self.combination(score_combiner, num_docs).complex_tree(
                query::trees(must@),
                query::trees(should@),
                query::trees(must_not@),
            ),
    {
        let mut must_scorers = must;
        let mut should_scorers = should;
        let ghost musts = query::trees(must@);
        let ghost shoulds = query::trees(should@);
        let num_of_should_scorers: usize = should_scorers.len();
        if self.minimum_number_should_match > num_of_should_scorers {
            return SpecializedScorer::Other(Scorer::Empty);
        }
        let should_opt = if num_of_should_scorers == 0 {
            assert(musts + shoulds =~= musts);
            CombinationMethod::Ignored
        } else {
            match self.minimum_number_should_match {
                0 => CombinationMethod::Optional(
                    scorer_union(should_scorers, score_combiner, num_docs),
                ),
                1 => CombinationMethod::Required(
                    scorer_union(should_scorers, score_combiner, num_docs),
                ),
                n if n == num_of_should_scorers => {
                    // Where all of these clauses have to match, they join those that have to
                    // anyway. They are not asked to agree on an array element.
                    must_scorers.append(&mut should_scorers);
                    assert(query::trees(must_scorers@) =~= musts + shoulds);
                    CombinationMethod::Ignored
                },
                _ => CombinationMethod::Required(
                    SpecializedScorer::Other(
                        scorer_disjunction(
                            should_scorers,
                            score_combiner,
                            self.minimum_number_should_match,
                        ),
                    ),
                ),
            }
        };
        let positive_scorer = if must_scorers.len() > 0 {
            match should_opt {
                CombinationMethod::Ignored => SpecializedScorer::Other(
                    intersect_scorers(must_scorers, num_docs),
                ),
                CombinationMethod::Optional(should_scorer) => {
                    let must_scorer = intersect_scorers(must_scorers, num_docs);
                    if self.scoring_enabled {
                        SpecializedScorer::Other(
                            Scorer::required_optional(
                                must_scorer,
                                into_box_scorer(should_scorer, score_combiner, num_docs),
                                self.score_combiner,
                            ),
                        )
                    } else {
                        SpecializedScorer::Other(must_scorer)
                    }
                },
                CombinationMethod::Required(should_scorer) => {
                    must_scorers.push(into_box_scorer(should_scorer, score_combiner, num_docs));
                    assert(query::trees(must_scorers@) =~= musts.push(
                        query::trees(must_scorers@).last(),
                    ));
                    SpecializedScorer::Other(intersect_scorers(must_scorers, num_docs))
                },
            }
        } else {
            match should_opt {
                CombinationMethod::Ignored => {
                    return SpecializedScorer::Other(Scorer::Empty);
                },
                CombinationMethod::Required(should_scorer) => should_scorer,
                // Where nothing has to match, one of the clauses that may match has to.
                CombinationMethod::Optional(should_scorer) => should_scorer,
            }
        };
        if must_not.len() > 0 {
            let exclude_scorer = into_box_scorer(
                scorer_union(must_not, ScoreCombiner::DoNothing, num_docs),
                ScoreCombiner::DoNothing,
                num_docs,
            );
            let positive_scorer_boxed = into_box_scorer(
                positive_scorer,
                score_combiner,
                num_docs,
            );
            SpecializedScorer::Other(Scorer::exclude(positive_scorer_boxed, exclude_scorer))
        } else {
            positive_scorer
        }
    }

    /// A scorer for all clauses, whose scores are combined by `score_combiner`.
    fn complex_scorer(&self, reader: &SegmentReader, score_combiner: ScoreCombiner) -> (scorer:
        Result<SpecializedScorer, SearchError>)
        ensures
            match scorer {
                Ok(scorer) => {
                    &&& scorer.fresh()
                    &&& weight::first_clause_failure(self.weights@, *reader) is None
                    &&& self.complex_builds(*reader, score_combiner, scorer.tree())
                },
                Err(error) => weight::first_clause_failure(self.weights@, *reader) == Some(error),
            },
        decreases self, 1nat,
    {
        let num_docs: u32 = reader.num_docs();
        let scorers = match self.per_occur_scorers(reader) {
            Ok(scorers) => scorers,
            Err(error) => {
                return Err(error);
            },
        };
        let PerOccurScorers { must, should, must_not } = scorers;
        let must = enforce_json_constraints(must, num_docs);
        Ok(self.combine(must, should, must_not, score_combiner, num_docs))
    }

    /// The scorers of the clauses, for each of the three things that a clause can have to do
    /// with a match.
    fn per_occur_scorers(&self, reader: &SegmentReader) -> (scorers: Result<
        PerOccurScorers,
        SearchError,
    >)
        ensures
            match scorers {
                Ok(scorers) => {
                    &&& scorers.fresh()
                    &&& weight::first_clause_failure(self.weights@, *reader) is None
                    &&& exists|docsets: Seq<ScorerTree>| #[trigger]
                        weight::all_clauses_build(self.weights@, *reader, docsets)
                            && scorers.split(self.occurs(), docsets)
                },
                Err(error) => weight::first_clause_failure(self.weights@, *reader) == Some(error),
            },
        decreases self, 0nat,
    {
        let mut scorers = PerOccurScorers {
            must: Vec::new(),
            should: Vec::new(),
            must_not: Vec::new(),
        };
        let ghost mut docsets: Seq<ScorerTree> = Seq::empty();
        proof {
            assert(query::trees(Seq::empty()) =~= Seq::<ScorerTree>::empty());
        }
        let mut at: usize = 0;
        while at < self.weights.len()
            invariant
                at <= self.weights@.len(),
                docsets.len() == at,
                scorers.fresh(),
                scorers.split(self.occurs().take(at as int), docsets),
                weight::first_clause_failure(self.weights@.take(at as int), *reader) is None,
                weight::all_clauses_build(self.weights@.take(at as int), *reader, docsets),
            decreases self.weights@.len() - at,
        {
            let ghost next = self.weights@.take(at + 1);
            assert(next.drop_last() =~= self.weights@.take(at as int));
            assert(next.last() == self.weights@[at as int]);
            let (occur, subweight) = &self.weights[at];
            match subweight.scorer(reader) {
                Ok(sub_scorer) => {
                    let ghost tree = sub_scorer.tree();
                    let ghost before = scorers;
                    match *occur {
                        Occur::Must => scorers.must.push(sub_scorer),
                        Occur::Should => scorers.should.push(sub_scorer),
                        Occur::MustNot => scorers.must_not.push(sub_scorer),
                    }
                    proof {
                        let more = docsets.push(tree);
                        assert(more.drop_last() =~= docsets);
                        assert(weight::all_clauses_build(next, *reader, more));
                        let occurs = self.occurs().take(at + 1);
                        assert(occurs.drop_last() =~= self.occurs().take(at as int));
                        assert(occurs.last() == *occur);
                        assert(query::trees(scorers.must@) =~= boolean_query::of_occur(
                            occurs,
                            more,
                            Occur::Must,
                        ));
                        assert(query::trees(scorers.should@) =~= boolean_query::of_occur(
                            occurs,
                            more,
                            Occur::Should,
                        ));
                        assert(query::trees(scorers.must_not@) =~= boolean_query::of_occur(
                            occurs,
                            more,
                            Occur::MustNot,
                        ));
                        docsets = more;
                    }
                },
                Err(error) => {
                    proof {
                        weight::lemma_first_clause_failure(
                            self.weights@,
                            *reader,
                            at as int,
                            error,
                        );
                    }
                    return Err(error);
                },
            }
            at = at + 1;
        }
        assert(self.weights@.take(at as int) =~= self.weights@);
        assert(self.occurs().take(at as int) =~= self.occurs());
        Ok(scorers)
    }
}

/// Asks whether a clause is meant to match.
fn is_positive_occur(occur: Occur) -> (positive: bool)
    ensures
        positive == (occur != Occur::MustNot),
{
    match occur {
        Occur::Must | Occur::Should => true,
        Occur::MustNot => false,
    }
}

/// How the clauses that may match are combined with the others.
enum CombinationMethod {
    /// They are not, or no longer.
    Ignored,
    /// They only add to the score.
    Optional(SpecializedScorer),
    /// They have to match.
    Required(SpecializedScorer),
}

/// Scorers, by what their clauses have to do with a match.
struct PerOccurScorers {
    must: Vec<Scorer>,
    should: Vec<Scorer>,
    must_not: Vec<Scorer>,
}

impl PerOccurScorers {
    spec fn fresh(self) -> bool {
        &&& query::all_fresh(self.must@)
        &&& query::all_fresh(self.should@)
        &&& query::all_fresh(self.must_not@)
    }

    /// True when the scorers go through `docsets`, split by `occurs`.
    spec fn split(self, occurs: Seq<Occur>, docsets: Seq<ScorerTree>) -> bool {
        &&& query::trees(self.must@) == boolean_query::of_occur(occurs, docsets, Occur::Must)
        &&& query::trees(self.should@) == boolean_query::of_occur(occurs, docsets, Occur::Should)
        &&& query::trees(self.must_not@) == boolean_query::of_occur(
            occurs,
            docsets,
            Occur::MustNot,
        )
    }
}

} // verus!
