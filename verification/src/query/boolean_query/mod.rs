//! Boolean combinations of clauses: what the scorer of such a combination goes through.
use vstd::prelude::*;

use crate::docset::DocId;
use crate::query;
use crate::query::json_utils;
use crate::query::leaf_scorers::{FreqReadingOption, JsonConstraintKey};
use crate::query::{ScoreCombiner, ScorerTree};

pub mod boolean_weight;
pub mod clauses;
pub mod json_constraint;
pub mod scores;

verus! {

/// What a clause has to do with a match.
#[derive(Clone, Copy, Debug, PartialEq, Eq, Structural)]
pub enum Occur {
    /// The clause has to match.
    Must,
    /// The clause may match. How many of these have to is a matter of the combination.
    Should,
    /// The clause must not match.
    MustNot,
}

/// A scorer, or a union of terms that is still to be made one.
pub enum SpecializedTree {
    /// Terms whose frequencies are read.
    TermUnion(Seq<ScorerTree>),
    /// Any scorer.
    Other(ScorerTree),
}

/// How the clauses of a combination are put together.
pub struct Combination {
    /// How many clauses that may match have to.
    pub minimum_number_should_match: usize,
    /// True when scores are wanted.
    pub scoring_enabled: bool,
    /// The combiner of the boolean weight.
    pub weight_combiner: ScoreCombiner,
    /// The combiner for this scorer.
    pub score_combiner: ScoreCombiner,
    /// The number of documents in the segment.
    pub num_docs: u32,
}

/// The JSON field whose clauses have to agree with a clause.
pub open spec fn json_key(tree: ScorerTree) -> Option<JsonConstraintKey> {
    match tree {
        ScorerTree::Term { json_constraint_key, .. } => json_constraint_key,
        ScorerTree::Phrase { json_constraint_key, .. } => json_constraint_key,
        _ => None,
    }
}

/// Tells which clauses have `key`.
pub open spec fn has_key(key: Option<JsonConstraintKey>) -> spec_fn(ScorerTree) -> bool {
    |tree: ScorerTree| json_key(tree) == key
}

/// The clauses that have `key`, in order.
pub open spec fn keyed(docsets: Seq<ScorerTree>, key: Option<JsonConstraintKey>) -> Seq<
    ScorerTree,
> {
    docsets.filter(has_key(key))
}

/// The clauses of one JSON field: a single one stands for itself, several have to agree.
pub open spec fn group_tree(group: Seq<ScorerTree>, num_docs: u32) -> ScorerTree {
    if group.len() == 1 {
        group[0]
    } else {
        ScorerTree::JsonPathIndexes { docsets: group, num_docs }
    }
}

/// True when `keys` are the keys of the clauses, each of them once.
pub open spec fn is_key_order(docsets: Seq<ScorerTree>, keys: Seq<JsonConstraintKey>) -> bool {
    &&& keys.no_duplicates()
    &&& forall|key: JsonConstraintKey| #[trigger]
        keys.contains(key) <==> keyed(docsets, Some(key)).len() > 0
}

/// The clauses without a key, then for each key its clauses as one.
pub open spec fn constrained(
    docsets: Seq<ScorerTree>,
    keys: Seq<JsonConstraintKey>,
    num_docs: u32,
) -> Seq<ScorerTree> {
    keyed(docsets, None) + keys.map_values(
        |key: JsonConstraintKey| group_tree(keyed(docsets, Some(key)), num_docs),
    )
}

/// True when all clauses are terms whose frequencies are read.
pub open spec fn reads_freqs(docsets: Seq<ScorerTree>) -> bool {
    forall|i: int|
        0 <= i < docsets.len() ==> (#[trigger] docsets[i]) is Term
            && docsets[i]->Term_freq_reading_option == FreqReadingOption::ReadFreq
}

/// Any of the clauses.
pub open spec fn union_tree(
    docsets: Seq<ScorerTree>,
    score_combiner: ScoreCombiner,
    num_docs: u32,
) -> SpecializedTree {
    if docsets.len() == 1 {
        SpecializedTree::Other(docsets[0])
    } else if reads_freqs(docsets) {
        SpecializedTree::TermUnion(docsets)
    } else {
        SpecializedTree::Other(ScorerTree::Union { docsets, score_combiner, num_docs })
    }
}

/// At least `minimum_match_required` of the clauses.
pub open spec fn disjunction_tree(
    docsets: Seq<ScorerTree>,
    score_combiner: ScoreCombiner,
    minimum_match_required: usize,
) -> ScorerTree {
    if docsets.len() == 1 {
        docsets[0]
    } else {
        ScorerTree::Disjunction { docsets, score_combiner, minimum_match_required }
    }
}

/// All of the clauses.
pub open spec fn intersect_tree(docsets: Seq<ScorerTree>, num_docs: u32) -> ScorerTree {
    if docsets.len() == 0 {
        ScorerTree::Empty
    } else if docsets.len() == 1 {
        docsets[0]
    } else {
        ScorerTree::Intersection { docsets, num_docs }
    }
}

/// The scorer that is made of a union of terms, if that is what it is.
pub open spec fn boxed_tree(
    tree: SpecializedTree,
    score_combiner: ScoreCombiner,
    num_docs: u32,
) -> ScorerTree {
    match tree {
        SpecializedTree::TermUnion(docsets) => ScorerTree::Union {
            docsets,
            score_combiner,
            num_docs,
        },
        SpecializedTree::Other(tree) => tree,
    }
}

/// The clauses with `occur`, in order.
pub open spec fn of_occur(occurs: Seq<Occur>, docsets: Seq<ScorerTree>, occur: Occur) -> Seq<
    ScorerTree,
>
    decreases occurs.len(),
{
    if occurs.len() == 0 || docsets.len() != occurs.len() {
        Seq::empty()
    } else {
        let before = of_occur(occurs.drop_last(), docsets.drop_last(), occur);
        if occurs.last() == occur {
            before.push(docsets.last())
        } else {
            before
        }
    }
}

impl Combination {
    /// True when as many of the clauses that may match have to as there are, at least two: they
    /// then join those that have to match anyway.
    pub open spec fn should_join_must(self, num_should: nat) -> bool {
        self.minimum_number_should_match >= 2 && self.minimum_number_should_match == num_should
    }

    /// The scorer for the clauses that may match, where there is one.
    pub open spec fn should_tree(self, should: Seq<ScorerTree>) -> SpecializedTree {
        if self.minimum_number_should_match <= 1 {
            union_tree(should, self.score_combiner, self.num_docs)
        } else {
            SpecializedTree::Other(
                disjunction_tree(should, self.score_combiner, self.minimum_number_should_match),
            )
        }
    }

    /// What matches, before anything is excluded. Nothing may.
    pub open spec fn positive_tree(
        self,
        must: Seq<ScorerTree>,
        should: Seq<ScorerTree>,
    ) -> Option<SpecializedTree> {
        if self.minimum_number_should_match > should.len() {
            None
        } else if should.len() == 0 || self.should_join_must(should.len()) {
            if must.len() + should.len() == 0 {
                None
            } else {
                Some(SpecializedTree::Other(intersect_tree(must + should, self.num_docs)))
            }
        } else if must.len() == 0 {
            Some(self.should_tree(should))
        } else {
            let boxed = boxed_tree(self.should_tree(should), self.score_combiner, self.num_docs);
            if self.minimum_number_should_match > 0 {
                Some(
                    SpecializedTree::Other(
                        intersect_tree(must.push(boxed), self.num_docs),
                    ),
                )
            } else if self.scoring_enabled {
                Some(
                    SpecializedTree::Other(
                        ScorerTree::RequiredOptional {
                            required: Box::new(intersect_tree(must, self.num_docs)),
                            optional: Box::new(boxed),
                            score_combiner: self.weight_combiner,
                        },
                    ),
                )
            } else {
                Some(SpecializedTree::Other(intersect_tree(must, self.num_docs)))
            }
        }
    }

    /// The scorer for all clauses, where those that have to match are `must`.
    pub open spec fn complex_tree(
        self,
        must: Seq<ScorerTree>,
        should: Seq<ScorerTree>,
        must_not: Seq<ScorerTree>,
    ) -> SpecializedTree {
        match self.positive_tree(must, should) {
            None => SpecializedTree::Other(ScorerTree::Empty),
            Some(positive) => if must_not.len() == 0 {
                positive
            } else {
                SpecializedTree::Other(
                    ScorerTree::Exclude {
                        underlying: Box::new(
                            boxed_tree(positive, self.score_combiner, self.num_docs),
                        ),
                        excluding: Box::new(
                            boxed_tree(
                                union_tree(must_not, ScoreCombiner::DoNothing, self.num_docs),
                                ScoreCombiner::DoNothing,
                                self.num_docs,
                            ),
                        ),
                    },
                )
            },
        }
    }

    /// True when `tree` is the scorer for clauses with `occurs` that go through `docsets`, for
    /// some order of the JSON fields.
    pub open spec fn combines(
        self,
        occurs: Seq<Occur>,
        docsets: Seq<ScorerTree>,
        tree: SpecializedTree,
    ) -> bool {
        let must = of_occur(occurs, docsets, Occur::Must);
        exists|keys: Seq<JsonConstraintKey>| #[trigger]
            is_key_order(must, keys) && tree == self.complex_tree(
                constrained(must, keys, self.num_docs),
                of_occur(occurs, docsets, Occur::Should),
                of_occur(occurs, docsets, Occur::MustNot),
            )
    }
}

/// True when all of several clauses match `doc`.
pub open spec fn all_match(docsets: Seq<ScorerTree>, doc: DocId) -> bool {
    forall|i: int| 0 <= i < docsets.len() ==> (#[trigger] docsets[i]).matches(doc)
}

/// True when the clauses of each JSON field agree on a path id in `doc`, where there are
/// several. Those that know of none restrict nothing.
pub open spec fn groups_agree(docsets: Seq<ScorerTree>, doc: DocId) -> bool {
    forall|key: JsonConstraintKey|
        (#[trigger] keyed(docsets, Some(key))).len() > 1 ==> query::paths_agree(
            query::clause_path_indexes(keyed(docsets, Some(key)), doc),
        )
}

impl Combination {
    /// True when clauses are combined into a match.
    pub open spec fn accepts(
        self,
        must: Seq<ScorerTree>,
        should: Seq<ScorerTree>,
        must_not: Seq<ScorerTree>,
        doc: DocId,
    ) -> bool {
        &&& must.len() > 0 || should.len() > 0
        &&& all_match(must, doc)
        &&& groups_agree(must, doc)
        &&& query::num_matching(should, doc) >= self.minimum_number_should_match
        &&& must.len() == 0 ==> query::num_matching(should, doc) > 0
        &&& query::num_matching(must_not, doc) == 0
    }
}

/// A scorer for a boolean combination has exactly the documents in which all clauses that
/// have to match do, those of each JSON field that know of array elements agree on one, enough
/// of the clauses that may match do, at least one where nothing has to, and none that must not
/// match does.
/// In which order the JSON fields are walked makes no difference, nor do the combiners.
pub proof fn lemma_boolean_matches(
    combination: Combination,
    occurs: Seq<Occur>,
    docsets: Seq<ScorerTree>,
    specialized: SpecializedTree,
    union_combiner: ScoreCombiner,
    doc: DocId,
)
    requires
        combination.combines(occurs, docsets, specialized),
    ensures
        boxed_tree(specialized, union_combiner, combination.num_docs).matches(doc)
            <==> combination.accepts(
            of_occur(occurs, docsets, Occur::Must),
            of_occur(occurs, docsets, Occur::Should),
            of_occur(occurs, docsets, Occur::MustNot),
            doc,
        ),
{
    let must = of_occur(occurs, docsets, Occur::Must);
    let should = of_occur(occurs, docsets, Occur::Should);
    let must_not = of_occur(occurs, docsets, Occur::MustNot);
    let num_docs = combination.num_docs;
    let keys = choose|keys: Seq<JsonConstraintKey>| #[trigger]
        is_key_order(must, keys) && specialized == combination.complex_tree(
            constrained(must, keys, num_docs),
            should,
            must_not,
        );
    let musts = constrained(must, keys, num_docs);
    lemma_constrained_matches(must, keys, num_docs, doc);
    lemma_num_matching(should, doc);
    lemma_num_matching(must_not, doc);
    match combination.positive_tree(musts, should) {
        None => {},
        Some(positive) => {
            let boxed = boxed_tree(positive, combination.score_combiner, num_docs);
            lemma_positive_matches(
                combination,
                musts,
                should,
                positive,
                combination.score_combiner,
                doc,
            );
            lemma_positive_matches(combination, musts, should, positive, union_combiner, doc);
            if must_not.len() > 0 {
                lemma_union_matches(
                    must_not,
                    ScoreCombiner::DoNothing,
                    ScoreCombiner::DoNothing,
                    num_docs,
                    doc,
                );
                let excluding = boxed_tree(
                    union_tree(must_not, ScoreCombiner::DoNothing, num_docs),
                    ScoreCombiner::DoNothing,
                    num_docs,
                );
                let tree = ScorerTree::Exclude {
                    underlying: Box::new(boxed),
                    excluding: Box::new(excluding),
                };
                assert(specialized == SpecializedTree::Other(tree));
                assert(tree.matches(doc) <==> boxed.matches(doc) && !excluding.matches(doc));
            }
        },
    }
}

/// What a clause has to do with a match where all that may match have to.
pub open spec fn should_as_must(occur: Occur) -> Occur {
    if occur == Occur::Should {
        Occur::Must
    } else {
        occur
    }
}

/// The clauses, all that may match having to.
pub open spec fn all_must(occurs: Seq<Occur>) -> Seq<Occur> {
    occurs.map_values(|occur: Occur| should_as_must(occur))
}

/// True when no two clauses are of the same JSON field.
pub open spec fn no_shared_key(docsets: Seq<ScorerTree>) -> bool {
    forall|key: JsonConstraintKey| (#[trigger] keyed(docsets, Some(key))).len() <= 1
}

/// Clauses that have to match, those that joined them among them.
proof fn lemma_all_must(occurs: Seq<Occur>, docsets: Seq<ScorerTree>, doc: DocId)
    requires
        docsets.len() == occurs.len(),
    ensures
        ({
            let must = of_occur(occurs, docsets, Occur::Must);
            let should = of_occur(occurs, docsets, Occur::Should);
            let joined = of_occur(all_must(occurs), docsets, Occur::Must);
            &&& joined.len() == must.len() + should.len()
            &&& query::num_matching(joined, doc) == query::num_matching(must, doc)
                + query::num_matching(should, doc)
            &&& of_occur(all_must(occurs), docsets, Occur::MustNot) == of_occur(
                occurs,
                docsets,
                Occur::MustNot,
            )
            &&& of_occur(all_must(occurs), docsets, Occur::Should) == Seq::<ScorerTree>::empty()
            &&& forall|key: JsonConstraintKey|
                (#[trigger] keyed(must, Some(key))).len() <= keyed(joined, Some(key)).len()
        }),
    decreases occurs.len(),
{
    reveal(Seq::filter);
    if occurs.len() > 0 {
        let fewer = occurs.drop_last();
        let trees = docsets.drop_last();
        lemma_all_must(fewer, trees, doc);
        assert(all_must(occurs).drop_last() =~= all_must(fewer));
        assert(all_must(occurs).last() == should_as_must(occurs.last()));
        let must = of_occur(fewer, trees, Occur::Must);
        let should = of_occur(fewer, trees, Occur::Should);
        let joined = of_occur(all_must(fewer), trees, Occur::Must);
        let last = docsets.last();
        assert(must.push(last).drop_last() =~= must);
        assert(should.push(last).drop_last() =~= should);
        assert(joined.push(last).drop_last() =~= joined);
        assert forall|key: JsonConstraintKey|
            (#[trigger] keyed(of_occur(occurs, docsets, Occur::Must), Some(key))).len() <= keyed(
                of_occur(all_must(occurs), docsets, Occur::Must),
                Some(key),
            ).len() by {
            assert(keyed(must, Some(key)).len() <= keyed(joined, Some(key)).len());
        }
    }
}

/// There are no more clauses of one kind than clauses.
pub(crate) proof fn lemma_of_occur_len(occurs: Seq<Occur>, docsets: Seq<ScorerTree>, occur: Occur)
    ensures
        of_occur(occurs, docsets, occur).len() <= occurs.len(),
    decreases occurs.len(),
{
    if occurs.len() > 0 && docsets.len() == occurs.len() {
        lemma_of_occur_len(occurs.drop_last(), docsets.drop_last(), occur);
    }
}

/// Where as many of the clauses that may match have to as there are, at least two, they are
/// accepted as if they had to match anyway. This is so where no two of these are of the same
/// JSON field: only clauses that have to match anyway are asked to agree on an element.
pub proof fn lemma_all_should_match(
    combination: Combination,
    occurs: Seq<Occur>,
    docsets: Seq<ScorerTree>,
    doc: DocId,
)
    requires
        docsets.len() == occurs.len(),
        combination.should_join_must(of_occur(occurs, docsets, Occur::Should).len()),
        no_shared_key(of_occur(all_must(occurs), docsets, Occur::Must)),
    ensures
        combination.accepts(
            of_occur(occurs, docsets, Occur::Must),
            of_occur(occurs, docsets, Occur::Should),
            of_occur(occurs, docsets, Occur::MustNot),
            doc,
        ) <==> (Combination { minimum_number_should_match: 0, ..combination }).accepts(
            of_occur(all_must(occurs), docsets, Occur::Must),
            of_occur(all_must(occurs), docsets, Occur::Should),
            of_occur(all_must(occurs), docsets, Occur::MustNot),
            doc,
        ),
{
    let must = of_occur(occurs, docsets, Occur::Must);
    let should = of_occur(occurs, docsets, Occur::Should);
    let joined = of_occur(all_must(occurs), docsets, Occur::Must);
    lemma_all_must(occurs, docsets, doc);
    lemma_num_matching(must, doc);
    lemma_num_matching(should, doc);
    lemma_num_matching(joined, doc);
    assert(groups_agree(joined, doc));
    assert forall|key: JsonConstraintKey|
        (#[trigger] keyed(must, Some(key))).len() > 1 implies query::paths_agree(
        query::clause_path_indexes(keyed(must, Some(key)), doc),
    ) by {
        assert(keyed(joined, Some(key)).len() <= 1);
    }
    assert(groups_agree(must, doc));
}

/// What matches before anything is excluded.
proof fn lemma_positive_matches(
    combination: Combination,
    must: Seq<ScorerTree>,
    should: Seq<ScorerTree>,
    positive: SpecializedTree,
    union_combiner: ScoreCombiner,
    doc: DocId,
)
    requires
        combination.positive_tree(must, should) == Some(positive),
    ensures
        boxed_tree(positive, union_combiner, combination.num_docs).matches(doc) <==> {
            &&& all_match(must, doc)
            &&& query::num_matching(should, doc) >= combination.minimum_number_should_match
            &&& must.len() == 0 ==> query::num_matching(should, doc) > 0
        },
{
    let num_docs = combination.num_docs;
    let minimum = combination.minimum_number_should_match;
    lemma_num_matching(should, doc);
    if should.len() == 0 || combination.should_join_must(should.len()) {
        lemma_intersect_matches(must + should, num_docs, doc);
        lemma_all_match_added(must, should, doc);
    } else {
        let boxed = boxed_tree(
            combination.should_tree(should),
            combination.score_combiner,
            num_docs,
        );
        if minimum <= 1 {
            lemma_union_matches(
                should,
                combination.score_combiner,
                combination.score_combiner,
                num_docs,
                doc,
            );
            lemma_union_matches(
                should,
                combination.score_combiner,
                union_combiner,
                num_docs,
                doc,
            );
        } else {
            assert(should.len() > 2);
            let tree = ScorerTree::Disjunction {
                docsets: should,
                score_combiner: combination.score_combiner,
                minimum_match_required: minimum,
            };
            assert(boxed == tree);
            assert(tree.matches(doc) <==> query::num_matching(should, doc) >= minimum);
        }
        if must.len() > 0 {
            lemma_intersect_matches(must, num_docs, doc);
            lemma_intersect_matches(must.push(boxed), num_docs, doc);
            assert(must.push(boxed) =~= must + seq![boxed]);
            lemma_all_match_added(must, seq![boxed], doc);
            assert(all_match(seq![boxed], doc) <==> boxed.matches(doc)) by {
                assert(seq![boxed][0] == boxed);
            }
            let required = intersect_tree(must, num_docs);
            let tree = ScorerTree::RequiredOptional {
                required: Box::new(required),
                optional: Box::new(boxed),
                score_combiner: combination.weight_combiner,
            };
            assert(tree.matches(doc) <==> required.matches(doc));
        }
    }
}

/// All of the clauses match where their intersection does.
proof fn lemma_intersect_matches(docsets: Seq<ScorerTree>, num_docs: u32, doc: DocId)
    ensures
        intersect_tree(docsets, num_docs).matches(doc) <==> docsets.len() > 0 && all_match(
            docsets,
            doc,
        ),
{
    if docsets.len() == 1 {
        assert(all_match(docsets, doc) <==> docsets[0].matches(doc));
    } else {
        reveal_with_fuel(ScorerTree::matches, 2);
    }
}

/// One of the clauses matches where their union does.
proof fn lemma_union_matches(
    docsets: Seq<ScorerTree>,
    score_combiner: ScoreCombiner,
    union_combiner: ScoreCombiner,
    num_docs: u32,
    doc: DocId,
)
    requires
        docsets.len() > 0,
    ensures
        boxed_tree(union_tree(docsets, score_combiner, num_docs), union_combiner, num_docs).matches(
            doc,
        ) <==> query::num_matching(docsets, doc) > 0,
{
    if docsets.len() == 1 {
        assert(query::num_matching(docsets.drop_last(), doc) == 0);
        assert(docsets.last() == docsets[0]);
        assert(query::num_matching(docsets, doc) == if docsets.last().matches(doc) {
            1nat
        } else {
            0
        });
    } else {
        let one = ScorerTree::Union { docsets, score_combiner, num_docs };
        let other = ScorerTree::Union { docsets, score_combiner: union_combiner, num_docs };
        assert(one.matches(doc) <==> query::num_matching(docsets, doc) > 0);
        assert(other.matches(doc) <==> query::num_matching(docsets, doc) > 0);
    }
}

/// As many clauses match as there are where all of them do.
proof fn lemma_num_matching(docsets: Seq<ScorerTree>, doc: DocId)
    ensures
        query::num_matching(docsets, doc) <= docsets.len(),
        query::num_matching(docsets, doc) == docsets.len() <==> all_match(docsets, doc),
    decreases docsets.len(),
{
    if docsets.len() > 0 {
        let rest = docsets.drop_last();
        lemma_num_matching(rest, doc);
        assert(query::num_matching(docsets, doc) == query::num_matching(rest, doc) + if
            docsets.last().matches(doc) {
            1nat
        } else {
            0
        });
        assert(docsets =~= rest + seq![docsets.last()]);
        lemma_all_match_added(rest, seq![docsets.last()], doc);
        assert(all_match(seq![docsets.last()], doc) <==> docsets.last().matches(doc)) by {
            assert(seq![docsets.last()][0] == docsets.last());
        }
    }
}

/// All of two lists match where all of each do.
proof fn lemma_all_match_added(one: Seq<ScorerTree>, other: Seq<ScorerTree>, doc: DocId)
    ensures
        all_match(one + other, doc) <==> all_match(one, doc) && all_match(other, doc),
{
    let all = one + other;
    if all_match(all, doc) {
        assert forall|i: int| 0 <= i < one.len() implies (#[trigger] one[i]).matches(doc) by {
            assert(all[i] == one[i]);
        }
        assert forall|i: int| 0 <= i < other.len() implies (#[trigger] other[i]).matches(doc) by {
            assert(all[one.len() + i] == other[i]);
        }
    }
}

/// The clauses match, and those of each JSON field agree, where the clauses put together do.
proof fn lemma_constrained_matches(
    docsets: Seq<ScorerTree>,
    keys: Seq<JsonConstraintKey>,
    num_docs: u32,
    doc: DocId,
)
    requires
        is_key_order(docsets, keys),
    ensures
        all_match(constrained(docsets, keys, num_docs), doc) <==> all_match(docsets, doc)
            && groups_agree(docsets, doc),
        constrained(docsets, keys, num_docs).len() == 0 <==> docsets.len() == 0,
{
    let as_one = |key: JsonConstraintKey| group_tree(keyed(docsets, Some(key)), num_docs);
    let free = keyed(docsets, None);
    let groups = keys.map_values(as_one);
    lemma_all_match_added(free, groups, doc);
    assert forall|key: Option<JsonConstraintKey>, tree: ScorerTree| #[trigger]
        keyed(docsets, key).contains(tree) <==> docsets.contains(tree) && json_key(tree)
            == key by {
        json_utils::lemma_filter(docsets, has_key(key));
    }
    assert forall|i: int| 0 <= i < keys.len() implies (groups[i].matches(doc) <==> all_match(
        keyed(docsets, Some(#[trigger] keys[i])),
        doc,
    ) && (keyed(docsets, Some(keys[i])).len() > 1 ==> query::paths_agree(
        query::clause_path_indexes(keyed(docsets, Some(keys[i])), doc),
    ))) by {
        assert(keys.contains(keys[i]));
        lemma_group_matches(keyed(docsets, Some(keys[i])), num_docs, doc);
    }
    if all_match(free, doc) && all_match(groups, doc) {
        assert forall|i: int| 0 <= i < docsets.len() implies (#[trigger] docsets[i]).matches(
            doc,
        ) by {
            let tree = docsets[i];
            let group = keyed(docsets, json_key(tree));
            assert(docsets.contains(tree));
            assert(group.contains(tree));
            let j = choose|j: int| 0 <= j < group.len() && group[j] == tree;
            match json_key(tree) {
                None => {
                    assert(free[j].matches(doc));
                },
                Some(key) => {
                    assert(keys.contains(key));
                    let k = choose|k: int| 0 <= k < keys.len() && keys[k] == key;
                    assert(groups[k].matches(doc));
                    assert(all_match(keyed(docsets, Some(keys[k])), doc));
                    assert(group[j].matches(doc));
                },
            }
        }
        assert forall|key: JsonConstraintKey|
            (#[trigger] keyed(docsets, Some(key))).len() > 1 implies query::paths_agree(
            query::clause_path_indexes(keyed(docsets, Some(key)), doc),
        ) by {
            assert(keys.contains(key));
            let k = choose|k: int| 0 <= k < keys.len() && keys[k] == key;
            assert(groups[k].matches(doc));
            assert(keyed(docsets, Some(keys[k])).len() > 1);
        }
    }
    if all_match(docsets, doc) && groups_agree(docsets, doc) {
        assert forall|key: Option<JsonConstraintKey>| all_match(
            #[trigger] keyed(docsets, key),
            doc,
        ) by {
            let group = keyed(docsets, key);
            assert forall|j: int| 0 <= j < group.len() implies (#[trigger] group[j]).matches(
                doc,
            ) by {
                assert(group.contains(group[j]));
                let i = choose|i: int| 0 <= i < docsets.len() && docsets[i] == group[j];
                assert(docsets[i].matches(doc));
            }
        }
        assert forall|i: int| 0 <= i < groups.len() implies (#[trigger] groups[i]).matches(
            doc,
        ) by {
            assert(keyed(docsets, Some(keys[i])).len() > 0);
        }
    }
    if docsets.len() > 0 {
        let tree = docsets[0];
        assert(docsets.contains(tree));
        assert(keyed(docsets, json_key(tree)).contains(tree));
        if let Some(key) = json_key(tree) {
            assert(keys.contains(key));
        }
    } else {
        if free.len() > 0 {
            assert(free.contains(free[0]));
        }
        if keys.len() > 0 {
            let group = keyed(docsets, Some(keys[0]));
            assert(keys.contains(keys[0]));
            assert(group.contains(group[0]));
        }
    }
}

/// The clauses of a JSON field match, and agree where there are several, where they do as one.
proof fn lemma_group_matches(group: Seq<ScorerTree>, num_docs: u32, doc: DocId)
    requires
        group.len() > 0,
    ensures
        group_tree(group, num_docs).matches(doc) <==> all_match(group, doc) && (group.len() > 1
            ==> query::paths_agree(query::clause_path_indexes(group, doc))),
{
    if group.len() == 1 {
        assert(all_match(group, doc) <==> group[0].matches(doc));
    } else {
        reveal_with_fuel(ScorerTree::matches, 2);
    }
}

/// There is an order of the keys of any clauses.
pub(crate) proof fn lemma_key_order(docsets: Seq<ScorerTree>) -> (keys: Seq<JsonConstraintKey>)
    ensures
        is_key_order(docsets, keys),
    decreases docsets.len(),
{
    reveal(Seq::filter);
    if docsets.len() == 0 {
        Seq::empty()
    } else {
        let rest = docsets.drop_last();
        let fewer = lemma_key_order(rest);
        let keys = match json_key(docsets.last()) {
            Some(key) => if fewer.contains(key) {
                fewer
            } else {
                fewer.push(key)
            },
            None => fewer,
        };
        assert forall|key: JsonConstraintKey| #[trigger]
            keys.contains(key) <==> keyed(docsets, Some(key)).len() > 0 by {
            assert(fewer.contains(key) <==> keyed(rest, Some(key)).len() > 0);
            if fewer.contains(key) {
                let i = choose|i: int| 0 <= i < fewer.len() && fewer[i] == key;
                assert(keys[i] == key);
            }
            if json_key(docsets.last()) == Some(key) && !fewer.contains(key) {
                assert(keys[fewer.len() as int] == key);
            }
        }
        keys
    }
}

/// The term or the phrase that a scorer is, where it is one.
pub open spec fn term_or_phrase(tree: ScorerTree) -> Option<ScorerTree> {
    match tree {
        ScorerTree::Term { .. } => Some(tree),
        ScorerTree::Phrase { .. } => Some(tree),
        _ => None,
    }
}

/// True when two scorers are the same term or phrase, or when neither is one, and when both
/// or neither have `doc`.
pub open spec fn alike(one: ScorerTree, other: ScorerTree, doc: DocId) -> bool {
    &&& term_or_phrase(one) == term_or_phrase(other)
    &&& one.matches(doc) <==> other.matches(doc)
}

/// True when several scorers are alike, one by one.
pub open spec fn all_alike(one: Seq<ScorerTree>, other: Seq<ScorerTree>, doc: DocId) -> bool {
    &&& one.len() == other.len()
    &&& forall|i: int| 0 <= i < one.len() ==> alike(#[trigger] one[i], other[i], doc)
}

/// Combinations accept clauses that are alike alike.
pub(crate) proof fn lemma_accepts_alike(
    combination: Combination,
    occurs: Seq<Occur>,
    one: Seq<ScorerTree>,
    other: Seq<ScorerTree>,
    doc: DocId,
)
    requires
        one.len() == occurs.len(),
        all_alike(one, other, doc),
    ensures
        combination.accepts(
            of_occur(occurs, one, Occur::Must),
            of_occur(occurs, one, Occur::Should),
            of_occur(occurs, one, Occur::MustNot),
            doc,
        ) <==> combination.accepts(
            of_occur(occurs, other, Occur::Must),
            of_occur(occurs, other, Occur::Should),
            of_occur(occurs, other, Occur::MustNot),
            doc,
        ),
{
    let one_must = of_occur(occurs, one, Occur::Must);
    let one_should = of_occur(occurs, one, Occur::Should);
    let one_must_not = of_occur(occurs, one, Occur::MustNot);
    let other_must = of_occur(occurs, other, Occur::Must);
    let other_should = of_occur(occurs, other, Occur::Should);
    let other_must_not = of_occur(occurs, other, Occur::MustNot);
    lemma_of_occur_alike(occurs, one, other, Occur::Must, doc);
    lemma_of_occur_alike(occurs, one, other, Occur::Should, doc);
    lemma_of_occur_alike(occurs, one, other, Occur::MustNot, doc);
    lemma_num_matching_alike(one_must, other_must, doc);
    lemma_num_matching_alike(one_should, other_should, doc);
    lemma_num_matching_alike(one_must_not, other_must_not, doc);
    lemma_num_matching(one_must, doc);
    lemma_num_matching(other_must, doc);
    lemma_keyed_alike(one_must, other_must, doc);
    if groups_agree(one_must, doc) {
        assert forall|key: JsonConstraintKey|
            (#[trigger] keyed(other_must, Some(key))).len() > 1 implies query::paths_agree(
            query::clause_path_indexes(keyed(other_must, Some(key)), doc),
        ) by {
            assert(keyed(one_must, Some(key)) == keyed(other_must, Some(key)));
        }
    }
    if groups_agree(other_must, doc) {
        assert forall|key: JsonConstraintKey|
            (#[trigger] keyed(one_must, Some(key))).len() > 1 implies query::paths_agree(
            query::clause_path_indexes(keyed(one_must, Some(key)), doc),
        ) by {
            assert(keyed(one_must, Some(key)) == keyed(other_must, Some(key)));
        }
    }
}

/// Scorers for combinations of clauses that are alike are alike.
pub(crate) proof fn lemma_combinations_alike(
    combination: Combination,
    occurs: Seq<Occur>,
    one: Seq<ScorerTree>,
    other: Seq<ScorerTree>,
    one_specialized: SpecializedTree,
    other_specialized: SpecializedTree,
    union_combiner: ScoreCombiner,
    doc: DocId,
)
    requires
        one.len() == occurs.len(),
        all_alike(one, other, doc),
        combination.combines(occurs, one, one_specialized),
        combination.combines(occurs, other, other_specialized),
    ensures
        alike(
            boxed_tree(one_specialized, union_combiner, combination.num_docs),
            boxed_tree(other_specialized, union_combiner, combination.num_docs),
            doc,
        ),
{
    let num_docs = combination.num_docs;
    lemma_boolean_matches(combination, occurs, one, one_specialized, union_combiner, doc);
    lemma_boolean_matches(combination, occurs, other, other_specialized, union_combiner, doc);
    lemma_accepts_alike(combination, occurs, one, other, doc);
    let one_must = of_occur(occurs, one, Occur::Must);
    let one_should = of_occur(occurs, one, Occur::Should);
    let one_must_not = of_occur(occurs, one, Occur::MustNot);
    let other_must = of_occur(occurs, other, Occur::Must);
    let other_should = of_occur(occurs, other, Occur::Should);
    let other_must_not = of_occur(occurs, other, Occur::MustNot);
    lemma_of_occur_alike(occurs, one, other, Occur::Must, doc);
    lemma_of_occur_alike(occurs, one, other, Occur::Should, doc);
    lemma_of_occur_alike(occurs, one, other, Occur::MustNot, doc);
    let one_keys = choose|keys: Seq<JsonConstraintKey>| #[trigger]
        is_key_order(one_must, keys) && one_specialized == combination.complex_tree(
            constrained(one_must, keys, num_docs),
            one_should,
            one_must_not,
        );
    let other_keys = choose|keys: Seq<JsonConstraintKey>| #[trigger]
        is_key_order(other_must, keys) && other_specialized == combination.complex_tree(
            constrained(other_must, keys, num_docs),
            other_should,
            other_must_not,
        );
    let one_musts = constrained(one_must, one_keys, num_docs);
    let other_musts = constrained(other_must, other_keys, num_docs);
    lemma_constrained_alike(one_must, other_must, one_keys, other_keys, num_docs, doc);
    if one_should.len() == 1 {
        assert(alike(one_should[0], other_should[0], doc));
    }
    if one_should.len() == 0 {
        assert(one_musts + one_should =~= one_musts);
        assert(other_musts + other_should =~= other_musts);
    }
    let one_tree = boxed_tree(one_specialized, union_combiner, num_docs);
    let other_tree = boxed_tree(other_specialized, union_combiner, num_docs);
    assert(term_or_phrase(one_tree) == term_or_phrase(other_tree));
}

proof fn lemma_of_occur_alike(
    occurs: Seq<Occur>,
    one: Seq<ScorerTree>,
    other: Seq<ScorerTree>,
    occur: Occur,
    doc: DocId,
)
    requires
        one.len() == occurs.len(),
        all_alike(one, other, doc),
    ensures
        all_alike(of_occur(occurs, one, occur), of_occur(occurs, other, occur), doc),
    decreases occurs.len(),
{
    if occurs.len() > 0 {
        assert forall|i: int| 0 <= i < one.len() - 1 implies alike(
            #[trigger] one.drop_last()[i],
            other.drop_last()[i],
            doc,
        ) by {
            assert(alike(one[i], other[i], doc));
        }
        lemma_of_occur_alike(occurs.drop_last(), one.drop_last(), other.drop_last(), occur, doc);
        assert(alike(one[one.len() - 1], other[one.len() - 1], doc));
    }
}

proof fn lemma_num_matching_alike(one: Seq<ScorerTree>, other: Seq<ScorerTree>, doc: DocId)
    requires
        all_alike(one, other, doc),
    ensures
        query::num_matching(one, doc) == query::num_matching(other, doc),
    decreases one.len(),
{
    if one.len() > 0 {
        assert forall|i: int| 0 <= i < one.len() - 1 implies alike(
            #[trigger] one.drop_last()[i],
            other.drop_last()[i],
            doc,
        ) by {
            assert(alike(one[i], other[i], doc));
        }
        lemma_num_matching_alike(one.drop_last(), other.drop_last(), doc);
        assert(alike(one[one.len() - 1], other[one.len() - 1], doc));
        assert(one.last().matches(doc) <==> other.last().matches(doc));
    }
}

/// The clauses of a JSON field are the same, where clauses are alike.
proof fn lemma_keyed_alike(one: Seq<ScorerTree>, other: Seq<ScorerTree>, doc: DocId)
    requires
        all_alike(one, other, doc),
    ensures
        forall|key: JsonConstraintKey| #[trigger]
            keyed(one, Some(key)) == keyed(other, Some(key)),
        all_alike(keyed(one, None), keyed(other, None), doc),
    decreases one.len(),
{
    reveal(Seq::filter);
    if one.len() > 0 {
        assert forall|i: int| 0 <= i < one.len() - 1 implies alike(
            #[trigger] one.drop_last()[i],
            other.drop_last()[i],
            doc,
        ) by {
            assert(alike(one[i], other[i], doc));
        }
        lemma_keyed_alike(one.drop_last(), other.drop_last(), doc);
        assert(alike(one[one.len() - 1], other[one.len() - 1], doc));
        let one_last = one.last();
        let other_last = other.last();
        assert(alike(one_last, other_last, doc));
        assert(json_key(one_last) == json_key(other_last));
        assert forall|key: JsonConstraintKey| #[trigger]
            keyed(one, Some(key)) == keyed(other, Some(key)) by {
            assert(keyed(one.drop_last(), Some(key)) == keyed(other.drop_last(), Some(key)));
        }
    } else {
        assert(one =~= other);
    }
}

/// Where clauses are alike, and only one is left when those of each JSON field are put
/// together, that one is alike.
proof fn lemma_constrained_alike(
    one: Seq<ScorerTree>,
    other: Seq<ScorerTree>,
    one_keys: Seq<JsonConstraintKey>,
    other_keys: Seq<JsonConstraintKey>,
    num_docs: u32,
    doc: DocId,
)
    requires
        all_alike(one, other, doc),
        is_key_order(one, one_keys),
        is_key_order(other, other_keys),
    ensures
        ({
            let one_constrained = constrained(one, one_keys, num_docs);
            let other_constrained = constrained(other, other_keys, num_docs);
            &&& one_constrained.len() == other_constrained.len()
            &&& one_constrained.len() == 1 ==> term_or_phrase(one_constrained[0])
                == term_or_phrase(other_constrained[0])
        }),
{
    lemma_keyed_alike(one, other, doc);
    assert forall|key: JsonConstraintKey| #[trigger]
        one_keys.contains(key) <==> other_keys.contains(key) by {
        assert(keyed(one, Some(key)) == keyed(other, Some(key)));
    }
    one_keys.unique_seq_to_set();
    other_keys.unique_seq_to_set();
    assert(one_keys.to_set() =~= other_keys.to_set()) by {
        assert forall|key: JsonConstraintKey| #[trigger]
            one_keys.to_set().contains(key) <==> other_keys.to_set().contains(key) by {
            assert(one_keys.contains(key) <==> other_keys.contains(key));
        }
    }
    let one_constrained = constrained(one, one_keys, num_docs);
    let other_constrained = constrained(other, other_keys, num_docs);
    if one_constrained.len() == 1 {
        if one_keys.len() == 0 {
            assert(alike(keyed(one, None)[0], keyed(other, None)[0], doc));
        } else {
            assert(one_keys.contains(one_keys[0]));
            assert(other_keys.contains(one_keys[0]));
            assert(keyed(one, Some(one_keys[0])) == keyed(other, Some(one_keys[0])));
        }
    }
}

} // verus!
