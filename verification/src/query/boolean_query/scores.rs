//! Which clauses of a boolean combination count towards the score of a document.
use vstd::multiset::Multiset;
use vstd::prelude::*;

use crate::docset::DocId;
use crate::query;
use crate::query::boolean_query;
use crate::query::boolean_query::boolean_weight::BooleanWeight;
use crate::query::boolean_query::clauses;
use crate::query::boolean_query::{Combination, Occur, SpecializedTree};
use crate::query::documents;
use crate::query::json_utils;
use crate::query::leaf_scorers::{FreqReadingOption, JsonConstraintKey};
use crate::query::score;
use crate::query::score::ScoreTree;
use crate::query::weight;
use crate::query::weight::{SegmentReader, Weight};
use crate::query::{ScoreCombiner, ScorerTree};

verus! {

/// The leaves of the scores of those of several trees that match `doc`, as often as they occur.
spec fn total(docsets: Seq<ScorerTree>, doc: DocId) -> Multiset<u32>
    decreases docsets.len(),
{
    if docsets.len() == 0 {
        Multiset::empty()
    } else {
        total(docsets.drop_last(), doc).add(share(docsets.last(), doc))
    }
}

/// The leaves of the score of one tree, where it matches `doc`.
spec fn share(docset: ScorerTree, doc: DocId) -> Multiset<u32> {
    if docset.matches(doc) {
        docset.score(doc).leaves().to_multiset()
    } else {
        Multiset::empty()
    }
}

/// The leaves for one tree more.
proof fn lemma_total_push(docsets: Seq<ScorerTree>, docset: ScorerTree, doc: DocId)
    ensures
        total(docsets.push(docset), doc) == total(docsets, doc).add(share(docset, doc)),
{
    assert(docsets.push(docset).drop_last() =~= docsets);
}

/// The leaves for two lists are those for each.
proof fn lemma_total_added(one: Seq<ScorerTree>, other: Seq<ScorerTree>, doc: DocId)
    ensures
        total(one + other, doc) =~= total(one, doc).add(total(other, doc)),
    decreases other.len(),
{
    broadcast use vstd::multiset::group_multiset_axioms;

    if other.len() == 0 {
        assert(one + other =~= one);
    } else {
        lemma_total_added(one, other.drop_last(), doc);
        assert((one + other).drop_last() =~= one + other.drop_last());
        assert((one + other).last() == other.last());
    }
}

/// The leaves for a single tree.
proof fn lemma_total_single(docset: ScorerTree, doc: DocId)
    ensures
        total(seq![docset], doc) =~= share(docset, doc),
{
    broadcast use vstd::multiset::group_multiset_axioms;

    lemma_total_push(Seq::empty(), docset, doc);
    assert(Seq::<ScorerTree>::empty().push(docset) =~= seq![docset]);
}

/// No leaves come from trees none of which matches.
proof fn lemma_total_of_none(docsets: Seq<ScorerTree>, doc: DocId)
    requires
        query::num_matching(docsets, doc) == 0,
    ensures
        total(docsets, doc) =~= Multiset::<u32>::empty(),
    decreases docsets.len(),
{
    broadcast use vstd::multiset::group_multiset_axioms;

    if docsets.len() > 0 {
        lemma_total_of_none(docsets.drop_last(), doc);
    }
}

/// The leaves of one score after those of others.
proof fn lemma_leaves_push(parts: Seq<ScoreTree>, part: ScoreTree)
    ensures
        score::all_leaves(parts.push(part)).to_multiset() == score::all_leaves(
            parts,
        ).to_multiset().add(part.leaves().to_multiset()),
{
    assert(parts.push(part).drop_last() =~= parts);
    vstd::seq_lib::lemma_multiset_commutative(score::all_leaves(parts), part.leaves());
}

/// No leaf is in nothing.
proof fn lemma_no_leaves()
    ensures
        score::all_leaves(Seq::<ScoreTree>::empty()).to_multiset() == Multiset::<u32>::empty(),
{
    broadcast use vstd::multiset::group_multiset_axioms;

    Seq::<u32>::empty().to_multiset_ensures();
    assert(Seq::<u32>::empty().to_multiset() =~= Multiset::<u32>::empty());
}

/// The leaves of the scores that count.
proof fn lemma_leaves_of_each(docsets: Seq<ScorerTree>, doc: DocId)
    ensures
        score::all_leaves(score::matching_scores(docsets, doc)).to_multiset() == total(
            docsets,
            doc,
        ),
        boolean_query::all_match(docsets, doc) ==> score::all_leaves(
            score::all_scores(docsets, doc),
        ).to_multiset() == total(docsets, doc),
    decreases docsets.len(),
{
    broadcast use vstd::multiset::group_multiset_axioms;

    lemma_no_leaves();
    if docsets.len() > 0 {
        let rest = docsets.drop_last();
        let last = docsets.last();
        lemma_leaves_of_each(rest, doc);
        lemma_leaves_push(score::matching_scores(rest, doc), last.score(doc));
        lemma_leaves_push(score::all_scores(rest, doc), last.score(doc));
        assert(total(docsets, doc) == total(rest, doc).add(share(last, doc)));
        if !last.matches(doc) {
            assert(total(docsets, doc) =~= total(rest, doc));
        }
        if boolean_query::all_match(docsets, doc) {
            assert forall|i: int| 0 <= i < rest.len() implies (#[trigger] rest[i]).matches(
                doc,
            ) by {
                assert(docsets[i].matches(doc));
            }
            assert(docsets[docsets.len() - 1].matches(doc));
        }
    }
}

/// The score of an intersection is made of those of all of it.
proof fn lemma_intersect_leaves(docsets: Seq<ScorerTree>, num_docs: u32, doc: DocId)
    requires
        docsets.len() > 0,
        boolean_query::all_match(docsets, doc),
    ensures
        boolean_query::intersect_tree(docsets, num_docs).score(doc).leaves().to_multiset()
            == total(docsets, doc),
{
    if docsets.len() == 1 {
        assert(docsets =~= seq![docsets[0]]);
        lemma_total_single(docsets[0], doc);
    } else {
        lemma_leaves_of_each(docsets, doc);
        reveal_with_fuel(ScorerTree::score, 2);
        reveal_with_fuel(ScoreTree::leaves, 2);
    }
}

/// The score of the clauses of a JSON field is made of those of all of them.
proof fn lemma_group_leaves(group: Seq<ScorerTree>, num_docs: u32, doc: DocId)
    requires
        group.len() > 0,
        boolean_query::all_match(group, doc),
    ensures
        boolean_query::group_tree(group, num_docs).score(doc).leaves().to_multiset() == total(
            group,
            doc,
        ),
{
    if group.len() == 1 {
        assert(group =~= seq![group[0]]);
        lemma_total_single(group[0], doc);
    } else {
        lemma_leaves_of_each(group, doc);
        reveal_with_fuel(ScorerTree::score, 2);
        reveal_with_fuel(ScoreTree::leaves, 2);
    }
}

/// The score of the clauses that may match is made of those that do.
proof fn lemma_should_leaves(
    combination: Combination,
    should: Seq<ScorerTree>,
    union_combiner: ScoreCombiner,
    doc: DocId,
)
    requires
        should.len() > 0,
        boolean_query::boxed_tree(
            combination.should_tree(should),
            union_combiner,
            combination.num_docs,
        ).matches(doc),
    ensures
        boolean_query::boxed_tree(
            combination.should_tree(should),
            union_combiner,
            combination.num_docs,
        ).score(doc).leaves().to_multiset() == total(should, doc),
{
    if should.len() == 1 {
        assert(should =~= seq![should[0]]);
        lemma_total_single(should[0], doc);
    } else {
        lemma_leaves_of_each(should, doc);
        reveal_with_fuel(ScorerTree::score, 2);
        reveal_with_fuel(ScoreTree::leaves, 2);
    }
}

/// The leaves for the clauses of several JSON fields.
spec fn keyed_total(
    docsets: Seq<ScorerTree>,
    keys: Seq<JsonConstraintKey>,
    doc: DocId,
) -> Multiset<u32>
    decreases keys.len(),
{
    if keys.len() == 0 {
        Multiset::empty()
    } else {
        keyed_total(docsets, keys.drop_last(), doc).add(
            total(boolean_query::keyed(docsets, Some(keys.last())), doc),
        )
    }
}

/// A clause adds its leaves to its JSON field alone.
proof fn lemma_keyed_total_push(
    docsets: Seq<ScorerTree>,
    last: ScorerTree,
    keys: Seq<JsonConstraintKey>,
    doc: DocId,
)
    requires
        keys.no_duplicates(),
    ensures
        keyed_total(docsets.push(last), keys, doc) =~= keyed_total(docsets, keys, doc).add(
            if boolean_query::json_key(last) is Some && keys.contains(
                boolean_query::json_key(last)->0,
            ) {
                share(last, doc)
            } else {
                Multiset::empty()
            },
        ),
    decreases keys.len(),
{
    broadcast use vstd::multiset::group_multiset_axioms;

    reveal(Seq::filter);
    if keys.len() > 0 {
        let fewer = keys.drop_last();
        let key = keys.last();
        lemma_keyed_total_push(docsets, last, fewer, doc);
        let group = boolean_query::keyed(docsets, Some(key));
        assert(docsets.push(last).drop_last() =~= docsets);
        lemma_total_push(group, last, doc);
        assert(keys =~= fewer.push(key));
        if boolean_query::json_key(last) is Some {
            let own = boolean_query::json_key(last)->0;
            if fewer.contains(own) {
                let i = choose|i: int| 0 <= i < fewer.len() && fewer[i] == own;
                assert(keys[i] == own);
                assert(own != key);
            } else if keys.contains(own) {
                let i = choose|i: int| 0 <= i < keys.len() && keys[i] == own;
                if i < fewer.len() {
                    assert(fewer[i] == own);
                }
                assert(own == key);
            }
            if own == key {
                assert(keys[keys.len() - 1] == own);
            }
        }
    }
}

/// The leaves for all clauses are those without a JSON field and those of each.
proof fn lemma_total_by_key(
    docsets: Seq<ScorerTree>,
    keys: Seq<JsonConstraintKey>,
    doc: DocId,
)
    requires
        keys.no_duplicates(),
        forall|i: int|
            #![trigger docsets[i]]
            0 <= i < docsets.len() && boolean_query::json_key(docsets[i]) is Some
                ==> keys.contains(boolean_query::json_key(docsets[i])->0),
    ensures
        total(docsets, doc) =~= total(boolean_query::keyed(docsets, None), doc).add(
            keyed_total(docsets, keys, doc),
        ),
    decreases docsets.len(),
{
    broadcast use vstd::multiset::group_multiset_axioms;

    reveal(Seq::filter);
    if docsets.len() > 0 {
        let rest = docsets.drop_last();
        let last = docsets.last();
        assert(docsets[docsets.len() - 1] == last);
        assert forall|i: int|
            #![trigger rest[i]]
            0 <= i < rest.len() && boolean_query::json_key(
                rest[i],
            ) is Some implies keys.contains(boolean_query::json_key(rest[i])->0) by {
            assert(docsets[i] == rest[i]);
        }
        lemma_total_by_key(rest, keys, doc);
        lemma_keyed_total_push(rest, last, keys, doc);
        assert(rest.push(last) =~= docsets);
        lemma_total_push(boolean_query::keyed(rest, None), last, doc);
    } else {
        lemma_keyed_total_of_none(docsets, keys, doc);
    }
}

/// No leaves come from the JSON fields of no clauses.
proof fn lemma_keyed_total_of_none(
    docsets: Seq<ScorerTree>,
    keys: Seq<JsonConstraintKey>,
    doc: DocId,
)
    requires
        docsets.len() == 0,
    ensures
        keyed_total(docsets, keys, doc) =~= Multiset::<u32>::empty(),
    decreases keys.len(),
{
    broadcast use vstd::multiset::group_multiset_axioms;

    reveal(Seq::filter);
    if keys.len() > 0 {
        lemma_keyed_total_of_none(docsets, keys.drop_last(), doc);
    }
}

/// The leaves for the JSON fields, the clauses of each as one.
proof fn lemma_groups_total(
    docsets: Seq<ScorerTree>,
    keys: Seq<JsonConstraintKey>,
    num_docs: u32,
    doc: DocId,
)
    requires
        forall|i: int|
            #![trigger keys[i]]
            0 <= i < keys.len() ==> {
                let group = boolean_query::keyed(docsets, Some(keys[i]));
                &&& group.len() > 0
                &&& boolean_query::all_match(group, doc)
                &&& boolean_query::group_tree(group, num_docs).matches(doc)
            },
    ensures
        total(
            keys.map_values(
                |key: JsonConstraintKey|
                    boolean_query::group_tree(boolean_query::keyed(docsets, Some(key)), num_docs),
            ),
            doc,
        ) == keyed_total(docsets, keys, doc),
    decreases keys.len(),
{
    let as_one = |key: JsonConstraintKey|
        boolean_query::group_tree(boolean_query::keyed(docsets, Some(key)), num_docs);
    if keys.len() > 0 {
        let fewer = keys.drop_last();
        assert forall|i: int| #![trigger fewer[i]] 0 <= i < fewer.len() implies {
            let group = boolean_query::keyed(docsets, Some(fewer[i]));
            &&& group.len() > 0
            &&& boolean_query::all_match(group, doc)
            &&& boolean_query::group_tree(group, num_docs).matches(doc)
        } by {
            assert(keys[i] == fewer[i]);
        }
        lemma_groups_total(docsets, fewer, num_docs, doc);
        let last = keys[keys.len() - 1];
        let group = boolean_query::keyed(docsets, Some(last));
        lemma_group_leaves(group, num_docs, doc);
        assert(keys.map_values(as_one) =~= fewer.map_values(as_one).push(as_one(last)));
        lemma_total_push(fewer.map_values(as_one), as_one(last), doc);
    }
}

/// Putting the clauses of each JSON field together changes no leaves.
proof fn lemma_constrained_total(
    docsets: Seq<ScorerTree>,
    keys: Seq<JsonConstraintKey>,
    num_docs: u32,
    doc: DocId,
)
    requires
        boolean_query::is_key_order(docsets, keys),
        boolean_query::all_match(boolean_query::constrained(docsets, keys, num_docs), doc),
    ensures
        total(boolean_query::constrained(docsets, keys, num_docs), doc) == total(docsets, doc),
{
    let as_one = |key: JsonConstraintKey|
        boolean_query::group_tree(boolean_query::keyed(docsets, Some(key)), num_docs);
    let free = boolean_query::keyed(docsets, None);
    let groups = keys.map_values(as_one);
    let all = boolean_query::constrained(docsets, keys, num_docs);
    boolean_query::lemma_constrained_matches(docsets, keys, num_docs, doc);
    assert forall|i: int|
        #![trigger docsets[i]]
        0 <= i < docsets.len() && boolean_query::json_key(
            docsets[i],
        ) is Some implies keys.contains(boolean_query::json_key(docsets[i])->0) by {
        let key = boolean_query::json_key(docsets[i]);
        json_utils::lemma_filter(docsets, boolean_query::has_key(key));
        assert(docsets.contains(docsets[i]));
        assert(boolean_query::keyed(docsets, key).contains(docsets[i]));
    }
    assert forall|i: int| #![trigger keys[i]] 0 <= i < keys.len() implies {
        let group = boolean_query::keyed(docsets, Some(keys[i]));
        &&& group.len() > 0
        &&& boolean_query::all_match(group, doc)
        &&& boolean_query::group_tree(group, num_docs).matches(doc)
    } by {
        let group = boolean_query::keyed(docsets, Some(keys[i]));
        assert(keys.contains(keys[i]));
        json_utils::lemma_filter(docsets, boolean_query::has_key(Some(keys[i])));
        assert forall|j: int| 0 <= j < group.len() implies (#[trigger] group[j]).matches(
            doc,
        ) by {
            assert(group.contains(group[j]));
            assert(docsets.contains(group[j]));
        }
        assert(all[free.len() + i] == groups[i]);
    }
    lemma_groups_total(docsets, keys, num_docs, doc);
    lemma_total_added(free, groups, doc);
    lemma_total_by_key(docsets, keys, doc);
}

/// The leaves of what matches before anything is excluded.
proof fn lemma_positive_leaves(
    combination: Combination,
    must: Seq<ScorerTree>,
    should: Seq<ScorerTree>,
    positive: SpecializedTree,
    union_combiner: ScoreCombiner,
    doc: DocId,
)
    requires
        combination.positive_tree(must, should) == Some(positive),
        boolean_query::boxed_tree(positive, union_combiner, combination.num_docs).matches(doc),
    ensures
        boolean_query::boxed_tree(positive, union_combiner, combination.num_docs).score(
            doc,
        ).leaves().to_multiset() =~= total(must, doc).add(
            if combination.scoring_enabled || combination.minimum_number_should_match > 0
                || must.len() == 0 {
                total(should, doc)
            } else {
                Multiset::empty()
            },
        ),
{
    broadcast use vstd::multiset::group_multiset_axioms;

    let num_docs = combination.num_docs;
    let minimum = combination.minimum_number_should_match;
    boolean_query::lemma_positive_matches(
        combination,
        must,
        should,
        positive,
        union_combiner,
        doc,
    );
    boolean_query::lemma_num_matching(should, doc);
    if should.len() == 0 || combination.should_join_must(should.len()) {
        boolean_query::lemma_all_match_added(must, should, doc);
        lemma_intersect_leaves(must + should, num_docs, doc);
        lemma_total_added(must, should, doc);
    } else if must.len() == 0 {
        lemma_should_leaves(combination, should, union_combiner, doc);
    } else {
        let boxed = boolean_query::boxed_tree(
            combination.should_tree(should),
            combination.score_combiner,
            num_docs,
        );
        if minimum <= 1 {
            boolean_query::lemma_union_matches(
                should,
                combination.score_combiner,
                combination.score_combiner,
                num_docs,
                doc,
            );
        } else {
            assert(should.len() > 2);
            reveal_with_fuel(ScorerTree::matches, 2);
        }
        if minimum > 0 {
            assert(boxed.matches(doc));
            lemma_should_leaves(combination, should, combination.score_combiner, doc);
            assert(must.push(boxed) =~= must + seq![boxed]);
            assert(seq![boxed][0] == boxed);
            boolean_query::lemma_all_match_added(must, seq![boxed], doc);
            lemma_intersect_leaves(must.push(boxed), num_docs, doc);
            lemma_total_push(must, boxed, doc);
        } else {
            let required = boolean_query::intersect_tree(must, num_docs);
            lemma_intersect_leaves(must, num_docs, doc);
            if combination.scoring_enabled {
                let none = Seq::<ScoreTree>::empty();
                let one = none.push(required.score(doc));
                lemma_no_leaves();
                lemma_leaves_push(none, required.score(doc));
                lemma_leaves_push(one, boxed.score(doc));
                assert(one =~= seq![required.score(doc)]);
                assert(one.push(boxed.score(doc)) =~= seq![required.score(doc), boxed.score(doc)]);
                if boxed.matches(doc) {
                    lemma_should_leaves(combination, should, combination.score_combiner, doc);
                } else {
                    lemma_total_of_none(should, doc);
                }
                reveal_with_fuel(ScorerTree::score, 2);
                reveal_with_fuel(ScoreTree::leaves, 2);
            }
        }
    }
}

/// The leaves for the clauses that count.
proof fn lemma_counted_total(
    occurs: Seq<Occur>,
    docsets: Seq<ScorerTree>,
    should_counts: bool,
    doc: DocId,
)
    requires
        docsets.len() == occurs.len(),
    ensures
        occurs.zip_with(docsets).filter(
            |clause: (Occur, ScorerTree)|
                (clause.0 == Occur::Must || clause.0 == Occur::Should && should_counts)
                    && clause.1.matches(doc),
        ).flat_map(|clause: (Occur, ScorerTree)| clause.1.score(doc).leaves()).to_multiset()
            =~= total(boolean_query::of_occur(occurs, docsets, Occur::Must), doc).add(
            if should_counts {
                total(boolean_query::of_occur(occurs, docsets, Occur::Should), doc)
            } else {
                Multiset::empty()
            },
        ),
    decreases occurs.len(),
{
    broadcast use vstd::multiset::group_multiset_axioms;

    reveal(Seq::filter);
    let counted = |clause: (Occur, ScorerTree)|
        (clause.0 == Occur::Must || clause.0 == Occur::Should && should_counts)
            && clause.1.matches(doc);
    let leaves = |clause: (Occur, ScorerTree)| clause.1.score(doc).leaves();
    let clauses = occurs.zip_with(docsets);
    if occurs.len() > 0 {
        let fewer = occurs.drop_last();
        let rest = docsets.drop_last();
        let last = docsets.last();
        lemma_counted_total(fewer, rest, should_counts, doc);
        assert(clauses.drop_last() =~= fewer.zip_with(rest));
        assert(clauses.last() == (occurs.last(), last));
        let before = fewer.zip_with(rest).filter(counted);
        before.lemma_flat_map_push(leaves, clauses.last());
        vstd::seq_lib::lemma_multiset_commutative(before.flat_map(leaves), leaves(clauses.last()));
        lemma_total_push(boolean_query::of_occur(fewer, rest, Occur::Must), last, doc);
        lemma_total_push(boolean_query::of_occur(fewer, rest, Occur::Should), last, doc);
    } else {
        assert(clauses.filter(counted) =~= Seq::empty());
        let mapped = clauses.filter(counted).map_values(leaves);
        assert(mapped =~= Seq::empty());
        assert(mapped.flatten() =~= Seq::empty());
        lemma_no_leaves();
    }
}

/// The score of a document is made of the scores of all clauses that have to match and, where
/// these count, of every clause that may match and does, be it one or many: each leaf is asked
/// for as often as these clauses hold it. The clauses that may match count where scores are
/// wanted, where some have to match, and where nothing else has to.
pub proof fn lemma_leaves_of_score(
    combination: Combination,
    occurs: Seq<Occur>,
    docsets: Seq<ScorerTree>,
    specialized: SpecializedTree,
    union_combiner: ScoreCombiner,
    doc: DocId,
)
    requires
        docsets.len() == occurs.len(),
        combination.combines(occurs, docsets, specialized),
        boolean_query::boxed_tree(specialized, union_combiner, combination.num_docs).matches(doc),
    ensures
        boolean_query::boxed_tree(specialized, union_combiner, combination.num_docs).score(
            doc,
        ).leaves().to_multiset() == occurs.zip_with(docsets).filter(
            |clause: (Occur, ScorerTree)|
                (clause.0 == Occur::Must || clause.0 == Occur::Should && (
                combination.scoring_enabled || combination.minimum_number_should_match > 0
                    || !occurs.contains(Occur::Must))) && clause.1.matches(doc),
        ).flat_map(|clause: (Occur, ScorerTree)| clause.1.score(doc).leaves()).to_multiset(),
{
    let must = boolean_query::of_occur(occurs, docsets, Occur::Must);
    let should = boolean_query::of_occur(occurs, docsets, Occur::Should);
    let must_not = boolean_query::of_occur(occurs, docsets, Occur::MustNot);
    let num_docs = combination.num_docs;
    let should_counts = combination.scoring_enabled || combination.minimum_number_should_match > 0
        || !occurs.contains(Occur::Must);
    let keys = choose|keys: Seq<JsonConstraintKey>| #[trigger]
        boolean_query::is_key_order(must, keys) && specialized == combination.complex_tree(
            boolean_query::constrained(must, keys, num_docs),
            should,
            must_not,
        );
    let musts = boolean_query::constrained(must, keys, num_docs);
    boolean_query::lemma_constrained_matches(must, keys, num_docs, doc);
    lemma_kind_occurs(occurs, docsets);
    match combination.positive_tree(musts, should) {
        None => {},
        Some(positive) => {
            let combiner = if must_not.len() > 0 {
                combination.score_combiner
            } else {
                union_combiner
            };
            let boxed = boolean_query::boxed_tree(positive, combiner, num_docs);
            let tree = boolean_query::boxed_tree(specialized, union_combiner, num_docs);
            if must_not.len() > 0 {
                assert(tree is Exclude && *tree->Exclude_underlying == boxed);
                reveal_with_fuel(ScorerTree::matches, 2);
                reveal_with_fuel(ScorerTree::score, 2);
            } else {
                assert(tree == boxed);
            }
            assert(boxed.matches(doc));
            assert(tree.score(doc) == boxed.score(doc));
            boolean_query::lemma_positive_matches(
                combination,
                musts,
                should,
                positive,
                combiner,
                doc,
            );
            lemma_positive_leaves(combination, musts, should, positive, combiner, doc);
            lemma_constrained_total(must, keys, num_docs, doc);
            lemma_counted_total(occurs, docsets, should_counts, doc);
            let counted = |clause: (Occur, ScorerTree)|
                (clause.0 == Occur::Must || clause.0 == Occur::Should && should_counts)
                    && clause.1.matches(doc);
            let stated = |clause: (Occur, ScorerTree)|
                (clause.0 == Occur::Must || clause.0 == Occur::Should && (
                combination.scoring_enabled || combination.minimum_number_should_match > 0
                    || !occurs.contains(Occur::Must))) && clause.1.matches(doc);
            assert(counted =~= stated);
        },
    }
}

/// There are clauses that have to match where one of the kinds says so.
proof fn lemma_kind_occurs(occurs: Seq<Occur>, docsets: Seq<ScorerTree>)
    requires
        docsets.len() == occurs.len(),
    ensures
        boolean_query::of_occur(occurs, docsets, Occur::Must).len() > 0 <==> occurs.contains(
            Occur::Must,
        ),
    decreases occurs.len(),
{
    if occurs.len() > 0 {
        let fewer = occurs.drop_last();
        lemma_kind_occurs(fewer, docsets.drop_last());
        if fewer.contains(Occur::Must) {
            let i = choose|i: int| 0 <= i < fewer.len() && fewer[i] == Occur::Must;
            assert(occurs[i] == Occur::Must);
        }
        if occurs.last() == Occur::Must {
            assert(occurs[occurs.len() - 1] == Occur::Must);
        }
        if occurs.contains(Occur::Must) && occurs.last() != Occur::Must {
            let i = choose|i: int| 0 <= i < occurs.len() && occurs[i] == Occur::Must;
            assert(fewer[i] == Occur::Must);
        }
    }
}

/// The clauses of one kind, in order.
pub open spec fn clauses_of(occurs: Seq<Occur>, docsets: Seq<ScorerTree>, occur: Occur) -> Seq<
    ScorerTree,
> {
    occurs.zip_with(docsets).filter(|clause: (Occur, ScorerTree)| clause.0 == occur).map_values(
        |clause: (Occur, ScorerTree)| clause.1,
    )
}

/// The scores of those clauses that match `doc`, in order.
pub open spec fn scores_found(docsets: Seq<ScorerTree>, doc: DocId) -> Seq<ScoreTree> {
    docsets.filter(|docset: ScorerTree| docset.matches(doc)).map_values(
        |docset: ScorerTree| docset.score(doc),
    )
}

/// The scores of clauses, in order.
pub open spec fn scores_of(docsets: Seq<ScorerTree>, doc: DocId) -> Seq<ScoreTree> {
    docsets.map_values(|docset: ScorerTree| docset.score(doc))
}

/// Clauses without a JSON field are put together as they are.
proof fn lemma_unkeyed(docsets: Seq<ScorerTree>, keys: Seq<JsonConstraintKey>, num_docs: u32)
    requires
        boolean_query::is_key_order(docsets, keys),
        forall|i: int|
            #![trigger docsets[i]]
            0 <= i < docsets.len() ==> boolean_query::json_key(docsets[i]) is None,
    ensures
        boolean_query::constrained(docsets, keys, num_docs) == docsets,
{
    lemma_filter_keeps(docsets, boolean_query::has_key(None));
    if keys.len() > 0 {
        assert(keys.contains(keys[0]));
        let group = boolean_query::keyed(docsets, Some(keys[0]));
        json_utils::lemma_filter(docsets, boolean_query::has_key(Some(keys[0])));
        assert(group.contains(group[0]));
        assert(docsets.contains(group[0]));
    }
    assert(boolean_query::constrained(docsets, keys, num_docs) =~= docsets);
}

/// What is kept where nothing is left out.
proof fn lemma_filter_keeps<T>(items: Seq<T>, kept: spec_fn(T) -> bool)
    requires
        forall|i: int| #![trigger items[i]] 0 <= i < items.len() ==> kept(items[i]),
    ensures
        items.filter(kept) == items,
    decreases items.len(),
{
    reveal(Seq::filter);
    if items.len() > 0 {
        let rest = items.drop_last();
        assert forall|i: int| #![trigger rest[i]] 0 <= i < rest.len() implies kept(rest[i]) by {
            assert(items[i] == rest[i]);
        }
        lemma_filter_keeps(rest, kept);
        assert(kept(items[items.len() - 1]));
    }
    assert(items.filter(kept) =~= items);
}

/// A single clause is put together as it is.
proof fn lemma_single_constrained(
    docsets: Seq<ScorerTree>,
    keys: Seq<JsonConstraintKey>,
    num_docs: u32,
)
    requires
        boolean_query::is_key_order(docsets, keys),
        docsets.len() == 1,
    ensures
        boolean_query::constrained(docsets, keys, num_docs) == docsets,
{
    let tree = docsets[0];
    match boolean_query::json_key(tree) {
        None => {
            lemma_unkeyed(docsets, keys, num_docs);
        },
        Some(key) => {
            lemma_filter_keeps(docsets, boolean_query::has_key(Some(key)));
            assert(keys.contains(key));
            assert forall|i: int| 0 <= i < keys.len() implies #[trigger] keys[i] == key by {
                assert(keys.contains(keys[i]));
                let group = boolean_query::keyed(docsets, Some(keys[i]));
                json_utils::lemma_filter(docsets, boolean_query::has_key(Some(keys[i])));
                assert(group.contains(group[0]));
                assert(docsets.contains(group[0]));
            }
            assert(keys.len() == 1) by {
                if keys.len() > 1 {
                    assert(keys[0] == key && keys[1] == key);
                }
            }
            let free = boolean_query::keyed(docsets, None);
            json_utils::lemma_filter(docsets, boolean_query::has_key(None));
            if free.len() > 0 {
                assert(free.contains(free[0]));
                assert(docsets.contains(free[0]));
            }
            assert(keys[0] == key);
            assert(boolean_query::constrained(docsets, keys, num_docs) =~= docsets);
        },
    }
}

/// The score of an intersection: that of a single clause, or the sum.
proof fn lemma_intersect_score(docsets: Seq<ScorerTree>, num_docs: u32, doc: DocId)
    requires
        docsets.len() > 0,
    ensures
        boolean_query::intersect_tree(docsets, num_docs).score(doc) == if docsets.len() == 1 {
            docsets[0].score(doc)
        } else {
            ScoreTree::Sum(scores_of(docsets, doc))
        },
{
    score::lemma_scores_of_each(docsets, doc);
    reveal_with_fuel(ScorerTree::score, 2);
}

/// The score of the clauses that may match: that of a single one, or what the combiner makes
/// of those that do.
proof fn lemma_should_score(
    combination: Combination,
    should: Seq<ScorerTree>,
    union_combiner: ScoreCombiner,
    doc: DocId,
)
    requires
        should.len() > 0,
        union_combiner == combination.score_combiner,
    ensures
        boolean_query::boxed_tree(
            combination.should_tree(should),
            union_combiner,
            combination.num_docs,
        ).score(doc) == if should.len() == 1 {
            should[0].score(doc)
        } else {
            ScoreTree::Combined(combination.score_combiner, scores_found(should, doc))
        },
{
    score::lemma_scores_of_each(should, doc);
    reveal_with_fuel(ScorerTree::score, 2);
}

/// How the scores of clauses become one. Those that may match are combined, a single one
/// stands for itself. Those that have to match are summed. Where both are there and none that
/// may match has to, the combiner of the weight makes one score of the two, the second of
/// which is only there where a clause that may match does; where some have to, the sum has
/// their score as its last part, or the score of each where all have to.
pub proof fn lemma_score_parts(
    combination: Combination,
    occurs: Seq<Occur>,
    docsets: Seq<ScorerTree>,
    specialized: SpecializedTree,
    doc: DocId,
)
    requires
        docsets.len() == occurs.len(),
        combination.combines(occurs, docsets, specialized),
        boolean_query::boxed_tree(
            specialized,
            combination.score_combiner,
            combination.num_docs,
        ).matches(doc),
    ensures
        ({
            let score = boolean_query::boxed_tree(
                specialized,
                combination.score_combiner,
                combination.num_docs,
            ).score(doc);
            let minimum = combination.minimum_number_should_match;
            let must = clauses_of(occurs, docsets, Occur::Must);
            let should = clauses_of(occurs, docsets, Occur::Should);
            let found = scores_found(should, doc);
            let optional = if should.len() == 1 {
                should[0].score(doc)
            } else {
                ScoreTree::Combined(combination.score_combiner, found)
            };
            let joined = should.len() == 0 || minimum >= 2 && minimum == should.len();
            let unkeyed = forall|i: int|
                #![trigger must[i]]
                0 <= i < must.len() ==> boolean_query::json_key(must[i]) is None;
            let required = if must.len() == 1 {
                must[0].score(doc)
            } else {
                ScoreTree::Sum(scores_of(must, doc))
            };
            &&& must.len() == 0 && !joined ==> score == optional
            &&& must.len() == 0 && joined ==> score == ScoreTree::Sum(scores_of(should, doc))
            &&& must.len() > 0 && !joined && minimum == 0 && combination.scoring_enabled ==> {
                &&& score is Combined
                &&& score->Combined_0 == combination.weight_combiner
                &&& score->Combined_1.len() == if found.len() > 0 {
                    2nat
                } else {
                    1
                }
                &&& found.len() > 0 ==> score->Combined_1[1] == optional
                &&& unkeyed || must.len() == 1 ==> score->Combined_1[0] == required
            }
            &&& must.len() > 0 && !joined && minimum > 0 ==> {
                &&& score is Sum
                &&& score->Sum_0.last() == optional
                &&& unkeyed || must.len() == 1 ==> score->Sum_0.drop_last() == scores_of(must, doc)
            }
            &&& must.len() > 0 && should.len() == 0 && (unkeyed || must.len() == 1) ==> score
                == required
            &&& must.len() > 0 && should.len() > 0 && joined && (unkeyed || must.len() == 1)
                ==> score == ScoreTree::Sum(scores_of(must, doc) + scores_of(should, doc))
            &&& must.len() > 0 && !joined && minimum == 0 && !combination.scoring_enabled && (
            unkeyed || must.len() == 1) ==> score == required
        }),
{
    let must = boolean_query::of_occur(occurs, docsets, Occur::Must);
    let should = boolean_query::of_occur(occurs, docsets, Occur::Should);
    let must_not = boolean_query::of_occur(occurs, docsets, Occur::MustNot);
    lemma_of_kind(occurs, docsets, Occur::Must);
    lemma_of_kind(occurs, docsets, Occur::Should);
    let keys = choose|keys: Seq<JsonConstraintKey>| #[trigger]
        boolean_query::is_key_order(must, keys) && specialized == combination.complex_tree(
            boolean_query::constrained(must, keys, combination.num_docs),
            should,
            must_not,
        );
    let musts = boolean_query::constrained(must, keys, combination.num_docs);
    let score = boolean_query::boxed_tree(
        specialized,
        combination.score_combiner,
        combination.num_docs,
    ).score(doc);
    lemma_complex_parts(combination, must, should, must_not, keys, specialized, doc);
    lemma_parts_of_each(combination, must, musts, should, score, doc);
}

/// What a score that is made of the scores of clauses looks like, where those that have to
/// match are `must` and stand in `musts` as they are, unless several are of JSON fields.
#[verifier::spinoff_prover]
proof fn lemma_parts_of_each(
    combination: Combination,
    must: Seq<ScorerTree>,
    musts: Seq<ScorerTree>,
    should: Seq<ScorerTree>,
    score: ScoreTree,
    doc: DocId,
)
    requires
        made_of(combination, musts, should, score, doc),
        musts.len() > 0 || should.len() > 0,
        musts.len() == 0 <==> must.len() == 0,
        must.len() == 1 || (forall|i: int|
            #![trigger must[i]]
            0 <= i < must.len() ==> boolean_query::json_key(must[i]) is None) ==> musts == must,
    ensures
        ({
            let minimum = combination.minimum_number_should_match;
            let found = scores_found(should, doc);
            let optional = if should.len() == 1 {
                should[0].score(doc)
            } else {
                ScoreTree::Combined(combination.score_combiner, found)
            };
            let joined = should.len() == 0 || minimum >= 2 && minimum == should.len();
            let unkeyed = forall|i: int|
                #![trigger must[i]]
                0 <= i < must.len() ==> boolean_query::json_key(must[i]) is None;
            let required = if must.len() == 1 {
                must[0].score(doc)
            } else {
                ScoreTree::Sum(scores_of(must, doc))
            };
            &&& must.len() == 0 && !joined ==> score == optional
            &&& must.len() == 0 && joined ==> score == ScoreTree::Sum(scores_of(should, doc))
            &&& must.len() > 0 && !joined && minimum == 0 && combination.scoring_enabled ==> {
                &&& score is Combined
                &&& score->Combined_0 == combination.weight_combiner
                &&& score->Combined_1.len() == if found.len() > 0 {
                    2nat
                } else {
                    1
                }
                &&& found.len() > 0 ==> score->Combined_1[1] == optional
                &&& unkeyed || must.len() == 1 ==> score->Combined_1[0] == required
            }
            &&& must.len() > 0 && !joined && minimum > 0 ==> {
                &&& score is Sum
                &&& score->Sum_0.last() == optional
                &&& unkeyed || must.len() == 1 ==> score->Sum_0.drop_last() == scores_of(must, doc)
            }
            &&& must.len() > 0 && should.len() == 0 && (unkeyed || must.len() == 1) ==> score
                == required
            &&& must.len() > 0 && should.len() > 0 && joined && (unkeyed || must.len() == 1)
                ==> score == ScoreTree::Sum(scores_of(must, doc) + scores_of(should, doc))
            &&& must.len() > 0 && !joined && minimum == 0 && !combination.scoring_enabled && (
            unkeyed || must.len() == 1) ==> score == required
        }),
{
    assert(scores_of(musts + should, doc) =~= scores_of(musts, doc) + scores_of(should, doc));
    assert(scores_of(musts, doc).push(should[0].score(doc)).drop_last() =~= scores_of(musts, doc));
    let combined = ScoreTree::Combined(
        combination.score_combiner,
        scores_found(should, doc),
    );
    assert(scores_of(musts, doc).push(combined).drop_last() =~= scores_of(musts, doc));
    if musts.len() == 0 {
        assert(musts + should =~= should);
    }
    if should.len() == 0 {
        assert(musts + should =~= musts);
    }
}

/// The clauses of one kind.
proof fn lemma_of_kind(occurs: Seq<Occur>, docsets: Seq<ScorerTree>, occur: Occur)
    requires
        docsets.len() == occurs.len(),
    ensures
        boolean_query::of_occur(occurs, docsets, occur) == clauses_of(occurs, docsets, occur),
    decreases occurs.len(),
{
    reveal(Seq::filter);
    let clauses = occurs.zip_with(docsets);
    if occurs.len() > 0 {
        let fewer = occurs.drop_last();
        let rest = docsets.drop_last();
        lemma_of_kind(fewer, rest, occur);
        assert(clauses.drop_last() =~= fewer.zip_with(rest));
        assert(clauses.last() == (occurs.last(), docsets.last()));
    }
    assert(boolean_query::of_occur(occurs, docsets, occur) =~= clauses_of(occurs, docsets, occur));
}

/// What the score is made of, where the JSON fields are walked in the order of `keys`.
proof fn lemma_complex_parts(
    combination: Combination,
    must: Seq<ScorerTree>,
    should: Seq<ScorerTree>,
    must_not: Seq<ScorerTree>,
    keys: Seq<JsonConstraintKey>,
    specialized: SpecializedTree,
    doc: DocId,
)
    requires
        boolean_query::is_key_order(must, keys),
        specialized == combination.complex_tree(
            boolean_query::constrained(must, keys, combination.num_docs),
            should,
            must_not,
        ),
        boolean_query::boxed_tree(
            specialized,
            combination.score_combiner,
            combination.num_docs,
        ).matches(doc),
    ensures
        ({
            let musts = boolean_query::constrained(must, keys, combination.num_docs);
            &&& made_of(
                combination,
                musts,
                should,
                boolean_query::boxed_tree(
                    specialized,
                    combination.score_combiner,
                    combination.num_docs,
                ).score(doc),
                doc,
            )
            &&& musts.len() > 0 || should.len() > 0
            &&& musts.len() == 0 <==> must.len() == 0
            &&& must.len() == 1 || (forall|i: int|
                #![trigger must[i]]
                0 <= i < must.len() ==> boolean_query::json_key(must[i]) is None) ==> musts == must
        }),
{
    let num_docs = combination.num_docs;
    let combiner = combination.score_combiner;
    let musts = boolean_query::constrained(must, keys, num_docs);
    boolean_query::lemma_constrained_matches(must, keys, num_docs, doc);
    if must.len() == 1 {
        lemma_single_constrained(must, keys, num_docs);
    } else if forall|i: int|
        #![trigger must[i]]
        0 <= i < must.len() ==> boolean_query::json_key(must[i]) is None {
        lemma_unkeyed(must, keys, num_docs);
    }
    match combination.positive_tree(musts, should) {
        None => {
            assert(!ScorerTree::Empty.matches(doc));
        },
        Some(positive) => {
            let boxed = boolean_query::boxed_tree(positive, combiner, num_docs);
            let tree = boolean_query::boxed_tree(specialized, combiner, num_docs);
            assert(tree.score(doc) == boxed.score(doc)) by {
                if must_not.len() > 0 {
                    assert(tree is Exclude && *tree->Exclude_underlying == boxed);
                    reveal_with_fuel(ScorerTree::score, 2);
                } else {
                    assert(tree == boxed);
                }
            }
            lemma_positive_parts(combination, musts, should, positive, doc);
        },
    }
}

/// True when a score is made of those of clauses that have to match and of some that may.
spec fn made_of(
    combination: Combination,
    must: Seq<ScorerTree>,
    should: Seq<ScorerTree>,
    score: ScoreTree,
    doc: DocId,
) -> bool {
    let minimum = combination.minimum_number_should_match;
    let found = scores_found(should, doc);
    let optional = if should.len() == 1 {
        should[0].score(doc)
    } else {
        ScoreTree::Combined(combination.score_combiner, found)
    };
    let joined = should.len() == 0 || minimum >= 2 && minimum == should.len();
    let required = if must.len() == 1 {
        must[0].score(doc)
    } else {
        ScoreTree::Sum(scores_of(must, doc))
    };
    if joined {
        score == if must.len() + should.len() == 1 {
            (must + should)[0].score(doc)
        } else {
            ScoreTree::Sum(scores_of(must + should, doc))
        }
    } else if must.len() == 0 {
        score == optional
    } else if minimum > 0 {
        score == ScoreTree::Sum(scores_of(must, doc).push(optional))
    } else if combination.scoring_enabled {
        score == ScoreTree::Combined(
            combination.weight_combiner,
            if found.len() > 0 {
                seq![required, optional]
            } else {
                seq![required]
            },
        )
    } else {
        score == required
    }
}

/// How the scores become one, before anything is excluded.
proof fn lemma_positive_parts(
    combination: Combination,
    must: Seq<ScorerTree>,
    should: Seq<ScorerTree>,
    positive: SpecializedTree,
    doc: DocId,
)
    requires
        combination.positive_tree(must, should) == Some(positive),
    ensures
        made_of(
            combination,
            must,
            should,
            boolean_query::boxed_tree(
                positive,
                combination.score_combiner,
                combination.num_docs,
            ).score(doc),
            doc,
        ),
{
    let num_docs = combination.num_docs;
    let combiner = combination.score_combiner;
    let minimum = combination.minimum_number_should_match;
    score::lemma_scores_of_each(should, doc);
    if should.len() == 0 || combination.should_join_must(should.len()) {
        lemma_intersect_score(must + should, num_docs, doc);
    } else {
        lemma_should_score(combination, should, combiner, doc);
        if must.len() > 0 {
            let boxed = boolean_query::boxed_tree(
                combination.should_tree(should),
                combiner,
                num_docs,
            );
            lemma_intersect_score(must, num_docs, doc);
            if minimum > 0 {
                lemma_intersect_score(must.push(boxed), num_docs, doc);
                assert(scores_of(must.push(boxed), doc) =~= scores_of(must, doc).push(
                    boxed.score(doc),
                ));
            } else {
                boolean_query::lemma_union_matches(should, combiner, combiner, num_docs, doc);
                lemma_num_found(should, doc);
                reveal_with_fuel(ScorerTree::score, 2);
            }
        }
    }
}

/// As many scores are found as clauses match.
proof fn lemma_num_found(docsets: Seq<ScorerTree>, doc: DocId)
    ensures
        scores_found(docsets, doc).len() == query::num_matching(docsets, doc),
    decreases docsets.len(),
{
    reveal(Seq::filter);
    if docsets.len() > 0 {
        lemma_num_found(docsets.drop_last(), doc);
    }
}

/// The scorer of the weight of a boolean query, and the scorers with which its documents are
/// visited, score a document by the scorers of the clauses: there are `parts`, one for each
/// clause, whose scores make up that of any document found. With scores wanted, those that
/// may match are all among them.
pub proof fn lemma_boolean_weight_scores(
    weight: BooleanWeight,
    reader: SegmentReader,
    score_combiner: ScoreCombiner,
    union_combiner: ScoreCombiner,
    tree: ScorerTree,
) -> (parts: Seq<ScorerTree>)
    requires
        weight.visits(reader, score_combiner, union_combiner, tree) || (weight.weights@.len() > 1
            && Weight::Boolean(weight).builds(reader, tree)),
    ensures
        parts.len() == weight.weights@.len(),
        forall|i: int|
            #![trigger parts[i]]
            0 <= i < parts.len() ==> weight.weights@[i].1.builds(reader, parts[i]),
        forall|doc: DocId| #[trigger]
            tree.matches(doc) ==> tree.score(doc).leaves().to_multiset()
                == weight.weights@.zip_with(parts).filter(
                |clause: ((Occur, Weight), ScorerTree)|
                    (clause.0.0 == Occur::Must || clause.0.0 == Occur::Should && (
                    weight.scoring_enabled || weight.minimum_number_should_match > 0
                        || !weight.occurs().contains(Occur::Must))) && clause.1.matches(doc),
            ).flat_map(
                |clause: ((Occur, Weight), ScorerTree)| clause.1.score(doc).leaves(),
            ).to_multiset(),
{
    if weight.visits(reader, score_combiner, union_combiner, tree) {
        lemma_visited_scores(weight, reader, score_combiner, union_combiner, tree)
    } else {
        weight::lemma_scorer_visits(weight, reader, tree);
        lemma_visited_scores(weight, reader, weight.combiner(), weight.combiner(), tree)
    }
}

/// What makes up the scores of the documents visited.
proof fn lemma_visited_scores(
    weight: BooleanWeight,
    reader: SegmentReader,
    score_combiner: ScoreCombiner,
    union_combiner: ScoreCombiner,
    tree: ScorerTree,
) -> (parts: Seq<ScorerTree>)
    requires
        weight.visits(reader, score_combiner, union_combiner, tree),
    ensures
        parts.len() == weight.weights@.len(),
        forall|i: int|
            #![trigger parts[i]]
            0 <= i < parts.len() ==> weight.weights@[i].1.builds(reader, parts[i]),
        forall|doc: DocId| #[trigger]
            tree.matches(doc) ==> tree.score(doc).leaves().to_multiset()
                == weight.weights@.zip_with(parts).filter(
                |clause: ((Occur, Weight), ScorerTree)|
                    (clause.0.0 == Occur::Must || clause.0.0 == Occur::Should && (
                    weight.scoring_enabled || weight.minimum_number_should_match > 0
                        || !weight.occurs().contains(Occur::Must))) && clause.1.matches(doc),
            ).flat_map(
                |clause: ((Occur, Weight), ScorerTree)| clause.1.score(doc).leaves(),
            ).to_multiset(),
{
    let num_docs = reader.num_docs;
    let occurs = weight.occurs();
    let specialized = choose|specialized: SpecializedTree| #[trigger]
        weight.complex_builds(reader, score_combiner, specialized) && tree
            == boolean_query::boxed_tree(specialized, union_combiner, num_docs);
    let combination = weight.combination(score_combiner, num_docs);
    let parts = choose|parts: Seq<ScorerTree>| #[trigger]
        weight::all_clauses_build(weight.weights@, reader, parts) && combination.combines(
            occurs,
            parts,
            specialized,
        );
    documents::lemma_each_clause_builds(weight.weights@, reader, parts);
    let should_counts = weight.scoring_enabled || weight.minimum_number_should_match > 0
        || !occurs.contains(Occur::Must);
    assert forall|doc: DocId| #[trigger] tree.matches(doc) implies tree.score(
        doc,
    ).leaves().to_multiset() == weight.weights@.zip_with(parts).filter(
        |clause: ((Occur, Weight), ScorerTree)|
            (clause.0.0 == Occur::Must || clause.0.0 == Occur::Should && (weight.scoring_enabled
                || weight.minimum_number_should_match > 0 || !weight.occurs().contains(
                Occur::Must,
            ))) && clause.1.matches(doc),
    ).flat_map(
        |clause: ((Occur, Weight), ScorerTree)| clause.1.score(doc).leaves(),
    ).to_multiset() by {
        lemma_leaves_of_score(combination, occurs, parts, specialized, union_combiner, doc);
        lemma_flat_map_of_clauses(weight.weights@, parts, should_counts, doc);
        let counted = |clause: (Occur, ScorerTree)|
            (clause.0 == Occur::Must || clause.0 == Occur::Should && should_counts)
                && clause.1.matches(doc);
        let stated = |clause: (Occur, ScorerTree)|
            (clause.0 == Occur::Must || clause.0 == Occur::Should && (
            combination.scoring_enabled || combination.minimum_number_should_match > 0
                || !occurs.contains(Occur::Must))) && clause.1.matches(doc);
        assert(counted =~= stated);
        let counted_weights = |clause: ((Occur, Weight), ScorerTree)|
            (clause.0.0 == Occur::Must || clause.0.0 == Occur::Should && should_counts)
                && clause.1.matches(doc);
        let stated_weights = |clause: ((Occur, Weight), ScorerTree)|
            (clause.0.0 == Occur::Must || clause.0.0 == Occur::Should && (weight.scoring_enabled
                || weight.minimum_number_should_match > 0 || !weight.occurs().contains(
                Occur::Must,
            ))) && clause.1.matches(doc);
        assert(counted_weights =~= stated_weights);
    }
    parts
}

/// With which combiners the scores of clauses become one: those visited with theirs, and those
/// of a scorer with that of the weight, or none where no scores are wanted. For any document
/// found, the clauses that may match are combined with it where nothing has to match. The two
/// scores of those that have to match and of those that may, where none of the latter has to,
/// are combined with that of the weight.
pub proof fn lemma_boolean_weight_combiners(
    weight: BooleanWeight,
    reader: SegmentReader,
    combiner: ScoreCombiner,
    tree: ScorerTree,
) -> (parts: Seq<ScorerTree>)
    requires
        weight.visits(reader, combiner, combiner, tree) || {
            &&& weight.weights@.len() > 1
            &&& Weight::Boolean(weight).builds(reader, tree)
            &&& weight.scoring_enabled ==> combiner == weight.score_combiner
            &&& !weight.scoring_enabled ==> combiner == ScoreCombiner::DoNothing
        },
    ensures
        parts.len() == weight.weights@.len(),
        forall|i: int|
            #![trigger parts[i]]
            0 <= i < parts.len() ==> weight.weights@[i].1.builds(reader, parts[i]),
        forall|doc: DocId| #[trigger]
            tree.matches(doc) ==> {
                let must = clauses_of(weight.occurs(), parts, Occur::Must);
                let should = clauses_of(weight.occurs(), parts, Occur::Should);
                let minimum = weight.minimum_number_should_match;
                &&& must.len() == 0 && should.len() == 1 ==> tree.score(doc) == should[0].score(
                    doc,
                )
                &&& must.len() == 0 && should.len() > 1 && minimum != should.len() ==> tree.score(
                    doc,
                ) == ScoreTree::Combined(combiner, scores_found(should, doc))
                &&& must.len() > 0 && should.len() > 0 && minimum == 0 && weight.scoring_enabled
                    ==> tree.score(doc) is Combined && tree.score(doc)->Combined_0
                    == weight.score_combiner
            },
{
    let num_docs = reader.num_docs;
    let occurs = weight.occurs();
    if !weight.visits(reader, combiner, combiner, tree) {
        weight::lemma_scorer_visits(weight, reader, tree);
    }
    let specialized = choose|specialized: SpecializedTree| #[trigger]
        weight.complex_builds(reader, combiner, specialized) && tree == boolean_query::boxed_tree(
            specialized,
            combiner,
            num_docs,
        );
    let combination = weight.combination(combiner, num_docs);
    let parts = choose|parts: Seq<ScorerTree>| #[trigger]
        weight::all_clauses_build(weight.weights@, reader, parts) && combination.combines(
            occurs,
            parts,
            specialized,
        );
    documents::lemma_each_clause_builds(weight.weights@, reader, parts);
    assert forall|doc: DocId| #[trigger] tree.matches(doc) implies {
        let must = clauses_of(weight.occurs(), parts, Occur::Must);
        let should = clauses_of(weight.occurs(), parts, Occur::Should);
        let minimum = weight.minimum_number_should_match;
        &&& must.len() == 0 && should.len() == 1 ==> tree.score(doc) == should[0].score(doc)
        &&& must.len() == 0 && should.len() > 1 && minimum != should.len() ==> tree.score(doc)
            == ScoreTree::Combined(combiner, scores_found(should, doc))
        &&& must.len() > 0 && should.len() > 0 && minimum == 0 && weight.scoring_enabled
            ==> tree.score(doc) is Combined && tree.score(doc)->Combined_0
            == weight.score_combiner
    } by {
        lemma_score_parts(combination, occurs, parts, specialized, doc);
    }
    parts
}

/// Terms are left for pruning exactly where nothing but clauses that may match is there, two or
/// more, no two of them have to match, and all are terms whose frequencies are read. They are
/// then all of the clauses, in order.
pub proof fn lemma_left_for_pruning(
    combination: Combination,
    occurs: Seq<Occur>,
    docsets: Seq<ScorerTree>,
    specialized: SpecializedTree,
)
    requires
        docsets.len() == occurs.len(),
        combination.combines(occurs, docsets, specialized),
    ensures
        specialized is TermUnion <==> {
            &&& docsets.len() > 1
            &&& combination.minimum_number_should_match <= 1
            &&& forall|i: int|
                #![trigger docsets[i]]
                #![trigger occurs[i]]
                0 <= i < docsets.len() ==> occurs[i] == Occur::Should && docsets[i] is Term
                    && docsets[i]->Term_freq_reading_option == FreqReadingOption::ReadFreq
        },
        specialized is TermUnion ==> specialized->TermUnion_0 == docsets,
{
    let must = boolean_query::of_occur(occurs, docsets, Occur::Must);
    let should = boolean_query::of_occur(occurs, docsets, Occur::Should);
    let must_not = boolean_query::of_occur(occurs, docsets, Occur::MustNot);
    let num_docs = combination.num_docs;
    let keys = choose|keys: Seq<JsonConstraintKey>| #[trigger]
        boolean_query::is_key_order(must, keys) && specialized == combination.complex_tree(
            boolean_query::constrained(must, keys, num_docs),
            should,
            must_not,
        );
    boolean_query::lemma_constrained_matches(must, keys, num_docs, 0);
    lemma_all_should(occurs, docsets);
}

/// Where no clause has to match and none must not, all of them may.
proof fn lemma_all_should(occurs: Seq<Occur>, docsets: Seq<ScorerTree>)
    requires
        docsets.len() == occurs.len(),
    ensures
        boolean_query::of_occur(occurs, docsets, Occur::Must).len() == 0
            && boolean_query::of_occur(occurs, docsets, Occur::MustNot).len() == 0 <==> forall|
            i: int,
        |
            #![trigger occurs[i]]
            #![trigger docsets[i]]
            0 <= i < occurs.len() ==> occurs[i] == Occur::Should,
        (forall|i: int|
            #![trigger occurs[i]]
            #![trigger docsets[i]]
            0 <= i < occurs.len() ==> occurs[i] == Occur::Should) ==> boolean_query::of_occur(
            occurs,
            docsets,
            Occur::Should,
        ) == docsets,
    decreases occurs.len(),
{
    if occurs.len() > 0 {
        let fewer = occurs.drop_last();
        let rest = docsets.drop_last();
        let last = occurs.len() - 1;
        lemma_all_should(fewer, rest);
        assert(occurs[last] == occurs.last());
        if forall|i: int|
            #![trigger occurs[i]]
            #![trigger docsets[i]]
            0 <= i < occurs.len() ==> occurs[i] == Occur::Should {
            assert forall|i: int|
                #![trigger fewer[i]]
                #![trigger rest[i]]
                0 <= i < fewer.len() implies fewer[i] == Occur::Should by {
                assert(occurs[i] == fewer[i]);
            }
            assert(boolean_query::of_occur(occurs, docsets, Occur::Should) =~= docsets);
        }
        if boolean_query::of_occur(occurs, docsets, Occur::Must).len() == 0
            && boolean_query::of_occur(occurs, docsets, Occur::MustNot).len() == 0 {
            assert forall|i: int|
                #![trigger occurs[i]]
                #![trigger docsets[i]]
                0 <= i < occurs.len() implies occurs[i] == Occur::Should by {
                if i < last {
                    assert(fewer[i] == occurs[i]);
                }
            }
        }
    } else {
        assert(boolean_query::of_occur(occurs, docsets, Occur::Should) =~= docsets);
    }
}

/// What is visited where all clauses may match and one is enough: the union of all of them. The
/// terms that are left for pruning are combined with the one combiner, others with the other.
pub proof fn lemma_visited_union(
    weight: BooleanWeight,
    reader: SegmentReader,
    score_combiner: ScoreCombiner,
    union_combiner: ScoreCombiner,
    tree: ScorerTree,
) -> (parts: Seq<ScorerTree>)
    requires
        weight.visits(reader, score_combiner, union_combiner, tree),
        weight.weights@.len() > 1,
        weight.minimum_number_should_match <= 1,
        forall|i: int|
            #![trigger weight.weights@[i]]
            0 <= i < weight.weights@.len() ==> weight.weights@[i].0 == Occur::Should,
    ensures
        parts.len() == weight.weights@.len(),
        forall|i: int|
            #![trigger parts[i]]
            0 <= i < parts.len() ==> weight.weights@[i].1.builds(reader, parts[i]),
        tree is Union,
        tree->Union_docsets == parts,
        tree->Union_num_docs == reader.num_docs,
        (forall|i: int|
            #![trigger parts[i]]
            0 <= i < parts.len() ==> parts[i] is Term && parts[i]->Term_freq_reading_option
                == FreqReadingOption::ReadFreq) ==> tree->Union_score_combiner == union_combiner,
        !(forall|i: int|
            #![trigger parts[i]]
            0 <= i < parts.len() ==> parts[i] is Term && parts[i]->Term_freq_reading_option
                == FreqReadingOption::ReadFreq) ==> tree->Union_score_combiner == score_combiner,
{
    let num_docs = reader.num_docs;
    let occurs = weight.occurs();
    let specialized = choose|specialized: SpecializedTree| #[trigger]
        weight.complex_builds(reader, score_combiner, specialized) && tree
            == boolean_query::boxed_tree(specialized, union_combiner, num_docs);
    let combination = weight.combination(score_combiner, num_docs);
    let parts = choose|parts: Seq<ScorerTree>| #[trigger]
        weight::all_clauses_build(weight.weights@, reader, parts) && combination.combines(
            occurs,
            parts,
            specialized,
        );
    documents::lemma_each_clause_builds(weight.weights@, reader, parts);
    assert forall|i: int|
        #![trigger occurs[i]]
        #![trigger parts[i]]
        0 <= i < occurs.len() implies occurs[i] == Occur::Should by {
        assert(weight.weights@[i].0 == Occur::Should);
    }
    lemma_all_should(occurs, parts);
    let must = boolean_query::of_occur(occurs, parts, Occur::Must);
    let should = boolean_query::of_occur(occurs, parts, Occur::Should);
    let must_not = boolean_query::of_occur(occurs, parts, Occur::MustNot);
    let keys = choose|keys: Seq<JsonConstraintKey>| #[trigger]
        boolean_query::is_key_order(must, keys) && specialized == combination.complex_tree(
            boolean_query::constrained(must, keys, num_docs),
            should,
            must_not,
        );
    boolean_query::lemma_constrained_matches(must, keys, num_docs, 0);
    assert(specialized == boolean_query::union_tree(parts, score_combiner, num_docs));
    parts
}

/// True when a scorer is one of `docsets`, or was put together of them for a segment with
/// `num_docs` documents.
pub open spec fn sized(tree: ScorerTree, docsets: Seq<ScorerTree>, num_docs: u32) -> bool
    decreases tree,
{
    docsets.contains(tree) || match tree {
        ScorerTree::Empty => true,
        ScorerTree::Union { num_docs: size, .. } => size == num_docs,
        ScorerTree::Disjunction { .. } => true,
        ScorerTree::Intersection { docsets: parts, num_docs: size } => size == num_docs && forall|
            i: int,
        |
            0 <= i < parts.len() ==> sized(#[trigger] parts[i], docsets, num_docs),
        ScorerTree::RequiredOptional { required, optional, .. } => sized(
            *required,
            docsets,
            num_docs,
        ) && sized(*optional, docsets, num_docs),
        ScorerTree::Exclude { underlying, excluding } => sized(*underlying, docsets, num_docs)
            && sized(*excluding, docsets, num_docs),
        ScorerTree::JsonPaths { num_docs: size, .. } => size == num_docs,
        ScorerTree::JsonPathIndexes { num_docs: size, .. } => size == num_docs,
        _ => false,
    }
}

/// All that is put together of clauses is put together for the segment they are of: its number
/// of documents is handed on wherever one is kept.
pub proof fn lemma_segment_size(
    combination: Combination,
    occurs: Seq<Occur>,
    docsets: Seq<ScorerTree>,
    specialized: SpecializedTree,
    union_combiner: ScoreCombiner,
)
    requires
        docsets.len() == occurs.len(),
        combination.combines(occurs, docsets, specialized),
    ensures
        sized(
            boolean_query::boxed_tree(specialized, union_combiner, combination.num_docs),
            docsets,
            combination.num_docs,
        ),
{
    let must = boolean_query::of_occur(occurs, docsets, Occur::Must);
    let should = boolean_query::of_occur(occurs, docsets, Occur::Should);
    let must_not = boolean_query::of_occur(occurs, docsets, Occur::MustNot);
    let num_docs = combination.num_docs;
    let keys = choose|keys: Seq<JsonConstraintKey>| #[trigger]
        boolean_query::is_key_order(must, keys) && specialized == combination.complex_tree(
            boolean_query::constrained(must, keys, num_docs),
            should,
            must_not,
        );
    let musts = boolean_query::constrained(must, keys, num_docs);
    lemma_kind_sized(occurs, docsets, Occur::Must, num_docs);
    lemma_kind_sized(occurs, docsets, Occur::Should, num_docs);
    lemma_kind_sized(occurs, docsets, Occur::MustNot, num_docs);
    lemma_constrained_sized(docsets, must, keys, num_docs);
    match combination.positive_tree(musts, should) {
        None => {},
        Some(positive) => {
            lemma_positive_sized(combination, docsets, musts, should, positive, union_combiner);
            lemma_positive_sized(
                combination,
                docsets,
                musts,
                should,
                positive,
                combination.score_combiner,
            );
            if must_not.len() > 0 {
                lemma_union_sized(
                    docsets,
                    must_not,
                    ScoreCombiner::DoNothing,
                    ScoreCombiner::DoNothing,
                    num_docs,
                );
                reveal_with_fuel(sized, 2);
            }
        },
    }
}

/// True when each of several scorers is put together for a segment.
spec fn all_sized(parts: Seq<ScorerTree>, docsets: Seq<ScorerTree>, num_docs: u32) -> bool {
    forall|i: int| 0 <= i < parts.len() ==> sized(#[trigger] parts[i], docsets, num_docs)
}

proof fn lemma_kind_sized(
    occurs: Seq<Occur>,
    docsets: Seq<ScorerTree>,
    occur: Occur,
    num_docs: u32,
)
    requires
        docsets.len() == occurs.len(),
    ensures
        all_sized(boolean_query::of_occur(occurs, docsets, occur), docsets, num_docs),
{
    let found = boolean_query::of_occur(occurs, docsets, occur);
    assert forall|i: int| 0 <= i < found.len() implies sized(
        #[trigger] found[i],
        docsets,
        num_docs,
    ) by {
        clauses::lemma_clause_of_kind(occurs, docsets, occur, found[i]);
        assert(found.contains(found[i]));
        assert(docsets.contains(found[i]));
    }
}

proof fn lemma_constrained_sized(
    docsets: Seq<ScorerTree>,
    must: Seq<ScorerTree>,
    keys: Seq<JsonConstraintKey>,
    num_docs: u32,
)
    requires
        boolean_query::is_key_order(must, keys),
        all_sized(must, docsets, num_docs),
    ensures
        all_sized(boolean_query::constrained(must, keys, num_docs), docsets, num_docs),
{
    let musts = boolean_query::constrained(must, keys, num_docs);
    let free = boolean_query::keyed(must, None);
    assert forall|key: Option<JsonConstraintKey>| all_sized(
        #[trigger] boolean_query::keyed(must, key),
        docsets,
        num_docs,
    ) by {
        let group = boolean_query::keyed(must, key);
        json_utils::lemma_filter(must, boolean_query::has_key(key));
        assert forall|i: int| 0 <= i < group.len() implies sized(
            #[trigger] group[i],
            docsets,
            num_docs,
        ) by {
            assert(group.contains(group[i]));
            assert(must.contains(group[i]));
        }
    }
    assert forall|i: int| 0 <= i < musts.len() implies sized(
        #[trigger] musts[i],
        docsets,
        num_docs,
    ) by {
        if i < free.len() {
            assert(musts[i] == free[i]);
        } else {
            let key = keys[i - free.len()];
            let group = boolean_query::keyed(must, Some(key));
            assert(keys.contains(key));
            assert(musts[i] == boolean_query::group_tree(group, num_docs));
            assert(all_sized(group, docsets, num_docs));
            if group.len() == 1 {
                assert(sized(group[0], docsets, num_docs));
            }
        }
    }
}

proof fn lemma_intersect_sized(docsets: Seq<ScorerTree>, parts: Seq<ScorerTree>, num_docs: u32)
    requires
        all_sized(parts, docsets, num_docs),
    ensures
        sized(boolean_query::intersect_tree(parts, num_docs), docsets, num_docs),
{
    if parts.len() == 1 {
        assert(sized(parts[0], docsets, num_docs));
    }
    reveal_with_fuel(sized, 2);
}

proof fn lemma_union_sized(
    docsets: Seq<ScorerTree>,
    parts: Seq<ScorerTree>,
    score_combiner: ScoreCombiner,
    union_combiner: ScoreCombiner,
    num_docs: u32,
)
    requires
        all_sized(parts, docsets, num_docs),
    ensures
        sized(
            boolean_query::boxed_tree(
                boolean_query::union_tree(parts, score_combiner, num_docs),
                union_combiner,
                num_docs,
            ),
            docsets,
            num_docs,
        ),
{
    if parts.len() == 1 {
        assert(sized(parts[0], docsets, num_docs));
    }
}

proof fn lemma_positive_sized(
    combination: Combination,
    docsets: Seq<ScorerTree>,
    must: Seq<ScorerTree>,
    should: Seq<ScorerTree>,
    positive: SpecializedTree,
    union_combiner: ScoreCombiner,
)
    requires
        combination.positive_tree(must, should) == Some(positive),
        all_sized(must, docsets, combination.num_docs),
        all_sized(should, docsets, combination.num_docs),
    ensures
        sized(
            boolean_query::boxed_tree(positive, union_combiner, combination.num_docs),
            docsets,
            combination.num_docs,
        ),
{
    let num_docs = combination.num_docs;
    if should.len() == 0 || combination.should_join_must(should.len()) {
        lemma_intersect_sized(docsets, must + should, num_docs);
    } else {
        lemma_should_sized(combination, docsets, should, union_combiner);
        lemma_should_sized(combination, docsets, should, combination.score_combiner);
        if must.len() > 0 {
            let boxed = boolean_query::boxed_tree(
                combination.should_tree(should),
                combination.score_combiner,
                num_docs,
            );
            lemma_intersect_sized(docsets, must, num_docs);
            lemma_intersect_sized(docsets, must.push(boxed), num_docs);
            reveal_with_fuel(sized, 2);
        }
    }
}

proof fn lemma_should_sized(
    combination: Combination,
    docsets: Seq<ScorerTree>,
    should: Seq<ScorerTree>,
    union_combiner: ScoreCombiner,
)
    requires
        all_sized(should, docsets, combination.num_docs),
    ensures
        sized(
            boolean_query::boxed_tree(
                combination.should_tree(should),
                union_combiner,
                combination.num_docs,
            ),
            docsets,
            combination.num_docs,
        ),
{
    lemma_union_sized(
        docsets,
        should,
        combination.score_combiner,
        union_combiner,
        combination.num_docs,
    );
    if should.len() == 1 {
        assert(sized(should[0], docsets, combination.num_docs));
    }
}

/// What a scorer of a boolean query puts together, it puts together for the segment.
pub proof fn lemma_boolean_weight_size(
    weight: BooleanWeight,
    reader: SegmentReader,
    score_combiner: ScoreCombiner,
    union_combiner: ScoreCombiner,
    tree: ScorerTree,
) -> (parts: Seq<ScorerTree>)
    requires
        weight.visits(reader, score_combiner, union_combiner, tree) || (weight.weights@.len() > 1
            && Weight::Boolean(weight).builds(reader, tree)),
    ensures
        parts.len() == weight.weights@.len(),
        forall|i: int|
            #![trigger parts[i]]
            0 <= i < parts.len() ==> weight.weights@[i].1.builds(reader, parts[i]),
        sized(tree, parts, reader.num_docs),
{
    let visited = weight.visits(reader, score_combiner, union_combiner, tree);
    let own = if visited {
        score_combiner
    } else {
        weight.combiner()
    };
    let own_union = if visited {
        union_combiner
    } else {
        weight.combiner()
    };
    if !visited {
        weight::lemma_scorer_visits(weight, reader, tree);
    }
    let specialized = choose|specialized: SpecializedTree| #[trigger]
        weight.complex_builds(reader, own, specialized) && tree == boolean_query::boxed_tree(
            specialized,
            own_union,
            reader.num_docs,
        );
    let combination = weight.combination(own, reader.num_docs);
    let parts = choose|parts: Seq<ScorerTree>| #[trigger]
        weight::all_clauses_build(weight.weights@, reader, parts) && combination.combines(
            weight.occurs(),
            parts,
            specialized,
        );
    documents::lemma_each_clause_builds(weight.weights@, reader, parts);
    lemma_segment_size(combination, weight.occurs(), parts, specialized, own_union);
    parts
}

/// The leaves are the same whether the clauses come with their weights or not.
proof fn lemma_flat_map_of_clauses(
    weights: Seq<(Occur, Weight)>,
    parts: Seq<ScorerTree>,
    should_counts: bool,
    doc: DocId,
)
    requires
        parts.len() == weights.len(),
    ensures
        weights.zip_with(parts).filter(
            |clause: ((Occur, Weight), ScorerTree)|
                (clause.0.0 == Occur::Must || clause.0.0 == Occur::Should && should_counts)
                    && clause.1.matches(doc),
        ).flat_map(|clause: ((Occur, Weight), ScorerTree)| clause.1.score(doc).leaves())
            == weights.map_values(|clause: (Occur, Weight)| clause.0).zip_with(parts).filter(
            |clause: (Occur, ScorerTree)|
                (clause.0 == Occur::Must || clause.0 == Occur::Should && should_counts)
                    && clause.1.matches(doc),
        ).flat_map(|clause: (Occur, ScorerTree)| clause.1.score(doc).leaves()),
    decreases weights.len(),
{
    reveal(Seq::filter);
    let kind = |clause: (Occur, Weight)| clause.0;
    let counted_weights = |clause: ((Occur, Weight), ScorerTree)|
        (clause.0.0 == Occur::Must || clause.0.0 == Occur::Should && should_counts)
            && clause.1.matches(doc);
    let counted = |clause: (Occur, ScorerTree)|
        (clause.0 == Occur::Must || clause.0 == Occur::Should && should_counts)
            && clause.1.matches(doc);
    let weight_leaves = |clause: ((Occur, Weight), ScorerTree)| clause.1.score(doc).leaves();
    let leaves = |clause: (Occur, ScorerTree)| clause.1.score(doc).leaves();
    let one = weights.zip_with(parts);
    let other = weights.map_values(kind).zip_with(parts);
    if weights.len() > 0 {
        let fewer = weights.drop_last();
        let rest = parts.drop_last();
        lemma_flat_map_of_clauses(fewer, rest, should_counts, doc);
        assert(one.drop_last() =~= fewer.zip_with(rest));
        assert(other.drop_last() =~= fewer.map_values(kind).zip_with(rest));
        assert(one.last() == (weights.last(), parts.last()));
        assert(other.last() == (weights.last().0, parts.last()));
        one.drop_last().filter(counted_weights).lemma_flat_map_push(weight_leaves, one.last());
        other.drop_last().filter(counted).lemma_flat_map_push(leaves, other.last());
    } else {
        assert(one.filter(counted_weights).map_values(weight_leaves) =~= other.filter(
            counted,
        ).map_values(leaves));
    }
}

} // verus!
