//! What a boolean combination finds, clause by clause.
use vstd::prelude::*;

use crate::docset::DocId;
use crate::query;
use crate::query::boolean_query;
use crate::query::boolean_query::boolean_weight::BooleanWeight;
use crate::query::boolean_query::{Combination, Occur};
use crate::query::documents;
use crate::query::leaf_scorers::JsonConstraintKey;
use crate::query::trees;
use crate::query::weight;
use crate::query::weight::{SegmentReader, Weight};
use crate::query::{ScoreCombiner, ScorerTree};

verus! {

/// The clauses of one kind are those that have that kind, all of them, in order, wherever they
/// stand.
pub proof fn lemma_clauses_of_kind(occurs: Seq<Occur>, docsets: Seq<ScorerTree>, occur: Occur)
    requires
        docsets.len() == occurs.len(),
    ensures
        boolean_query::of_occur(occurs, docsets, occur) == occurs.zip_with(docsets).filter(
            |clause: (Occur, ScorerTree)| clause.0 == occur,
        ).map_values(|clause: (Occur, ScorerTree)| clause.1),
        boolean_query::of_occur(occurs, docsets, occur).len() == occurs.filter(
            |other: Occur| other == occur,
        ).len(),
    decreases occurs.len(),
{
    reveal(Seq::filter);
    let kind = |clause: (Occur, ScorerTree)| clause.0 == occur;
    let same = |other: Occur| other == occur;
    let tree = |clause: (Occur, ScorerTree)| clause.1;
    let clauses = occurs.zip_with(docsets);
    if occurs.len() > 0 {
        let fewer = occurs.drop_last();
        let rest = docsets.drop_last();
        lemma_clauses_of_kind(fewer, rest, occur);
        assert(clauses.drop_last() =~= fewer.zip_with(rest));
        assert(clauses.last() == (occurs.last(), docsets.last()));
        assert(clauses.filter(kind).map_values(tree) =~= boolean_query::of_occur(
            occurs,
            docsets,
            occur,
        ));
    } else {
        assert(clauses.filter(kind).map_values(tree) =~= boolean_query::of_occur(
            occurs,
            docsets,
            occur,
        ));
    }
}

/// A clause is among those of a kind where it has that kind.
pub proof fn lemma_clause_of_kind(
    occurs: Seq<Occur>,
    docsets: Seq<ScorerTree>,
    occur: Occur,
    tree: ScorerTree,
)
    requires
        docsets.len() == occurs.len(),
    ensures
        boolean_query::of_occur(occurs, docsets, occur).contains(tree) <==> exists|i: int|
            #![trigger docsets[i]]
            0 <= i < docsets.len() && occurs[i] == occur && docsets[i] == tree,
    decreases occurs.len(),
{
    let found = boolean_query::of_occur(occurs, docsets, occur);
    if occurs.len() > 0 {
        let fewer = occurs.drop_last();
        let rest = docsets.drop_last();
        let before = boolean_query::of_occur(fewer, rest, occur);
        let last = occurs.len() - 1;
        lemma_clause_of_kind(fewer, rest, occur, tree);
        assert(docsets[last] == docsets.last());
        if before.contains(tree) {
            let j = choose|j: int| 0 <= j < before.len() && before[j] == tree;
            assert(found[j] == tree);
            let i = choose|i: int|
                #![trigger rest[i]]
                0 <= i < rest.len() && fewer[i] == occur && rest[i] == tree;
            assert(docsets[i] == tree);
        }
        if found.contains(tree) && !before.contains(tree) {
            let j = choose|j: int| 0 <= j < found.len() && found[j] == tree;
            assert(j == before.len());
        }
        if exists|i: int|
            #![trigger docsets[i]]
            0 <= i < docsets.len() && occurs[i] == occur && docsets[i] == tree {
            let i = choose|i: int|
                #![trigger docsets[i]]
                0 <= i < docsets.len() && occurs[i] == occur && docsets[i] == tree;
            if i < last {
                assert(rest[i] == tree && fewer[i] == occur);
            } else {
                assert(found[before.len() as int] == tree);
            }
        }
    }
}

/// How many clauses of a kind match is how many clauses there are that have the kind and match.
pub proof fn lemma_num_matching_of_kind(
    occurs: Seq<Occur>,
    docsets: Seq<ScorerTree>,
    occur: Occur,
    doc: DocId,
)
    requires
        docsets.len() == occurs.len(),
    ensures
        query::num_matching(boolean_query::of_occur(occurs, docsets, occur), doc)
            == occurs.zip_with(docsets).filter(
            |clause: (Occur, ScorerTree)| clause.0 == occur && clause.1.matches(doc),
        ).len(),
    decreases occurs.len(),
{
    reveal(Seq::filter);
    let counted = |clause: (Occur, ScorerTree)| clause.0 == occur && clause.1.matches(doc);
    let clauses = occurs.zip_with(docsets);
    if occurs.len() > 0 {
        let fewer = occurs.drop_last();
        let rest = docsets.drop_last();
        let before = boolean_query::of_occur(fewer, rest, occur);
        lemma_num_matching_of_kind(fewer, rest, occur, doc);
        assert(clauses.drop_last() =~= fewer.zip_with(rest));
        assert(clauses.last() == (occurs.last(), docsets.last()));
        assert(before.push(docsets.last()).drop_last() =~= before);
    }
}

/// The clauses of a JSON field are the clauses that have its key, all of them, in order.
pub proof fn lemma_clauses_of_field(
    occurs: Seq<Occur>,
    docsets: Seq<ScorerTree>,
    key: Option<JsonConstraintKey>,
    tree: ScorerTree,
)
    requires
        docsets.len() == occurs.len(),
    ensures
        boolean_query::keyed(
            boolean_query::of_occur(occurs, docsets, Occur::Must),
            key,
        ).contains(tree) <==> exists|i: int|
            #![trigger docsets[i]]
            0 <= i < docsets.len() && occurs[i] == Occur::Must && docsets[i] == tree && (
            match tree {
                ScorerTree::Term { json_constraint_key, .. } => json_constraint_key == key,
                ScorerTree::Phrase { json_constraint_key, .. } => json_constraint_key == key,
                _ => key is None,
            }),
{
    let must = boolean_query::of_occur(occurs, docsets, Occur::Must);
    lemma_clause_of_kind(occurs, docsets, Occur::Must, tree);
    query::json_utils::lemma_filter(must, boolean_query::has_key(key));
    if boolean_query::keyed(must, key).contains(tree) {
        assert(must.contains(tree));
        let i = choose|i: int|
            #![trigger docsets[i]]
            0 <= i < docsets.len() && occurs[i] == Occur::Must && docsets[i] == tree;
        assert(docsets[i] == tree);
    }
}

/// The path ids that a clause that has to match has in `doc`, where it is one of the JSON field
/// `key`. Those of other clauses are not asked for.
pub open spec fn asked_indexes(
    occur: Occur,
    tree: ScorerTree,
    key: JsonConstraintKey,
    doc: DocId,
) -> Option<Seq<u32>> {
    match (occur, tree) {
        (
            Occur::Must,
            ScorerTree::Term { json_constraint_key: Some(own), .. },
        ) => if own == key {
            tree.json_array_path_indexes(doc)
        } else {
            None
        },
        (
            Occur::Must,
            ScorerTree::Phrase { json_constraint_key: Some(own), .. },
        ) => if own == key {
            tree.json_array_path_indexes(doc)
        } else {
            None
        },
        _ => None,
    }
}

/// What each clause is asked for on account of the JSON field `key`.
pub open spec fn asked(
    occurs: Seq<Occur>,
    docsets: Seq<ScorerTree>,
    key: JsonConstraintKey,
    doc: DocId,
) -> Seq<Option<Seq<u32>>> {
    Seq::new(docsets.len(), |i: int| asked_indexes(occurs[i], docsets[i], key, doc))
}

/// The clauses of each JSON field agree where, for each key, there is a path id that is one of
/// those of each clause that has to match, has the key and knows of any.
proof fn lemma_fields_agree(occurs: Seq<Occur>, docsets: Seq<ScorerTree>, doc: DocId)
    requires
        docsets.len() == occurs.len(),
    ensures
        boolean_query::groups_agree(
            boolean_query::of_occur(occurs, docsets, Occur::Must),
            doc,
        ) <==> forall|key: JsonConstraintKey|
            #![trigger asked(occurs, docsets, key, doc)]
            trees::all_know_one(
                asked(occurs, docsets, key, doc),
            ),
{
    let must = boolean_query::of_occur(occurs, docsets, Occur::Must);
    assert forall|key: JsonConstraintKey|
        #![trigger asked(occurs, docsets, key, doc)]
        (boolean_query::keyed(must, Some(key)).len() > 1 ==> query::paths_agree(
            query::clause_path_indexes(boolean_query::keyed(must, Some(key)), doc),
        )) <==> trees::all_know_one(
            asked(occurs, docsets, key, doc),
        ) by {
        lemma_field_agrees(occurs, docsets, key, doc);
    }
    if boolean_query::groups_agree(must, doc) {
        assert forall|key: JsonConstraintKey|
            #![trigger asked(occurs, docsets, key, doc)]
            trees::all_know_one(
                asked(occurs, docsets, key, doc),
            ) by {
            let group = boolean_query::keyed(must, Some(key));
        }
    }
    if forall|key: JsonConstraintKey|
        #![trigger asked(occurs, docsets, key, doc)]
        trees::all_know_one(
            asked(occurs, docsets, key, doc),
        ) {
        assert forall|key: JsonConstraintKey|
            (#[trigger] boolean_query::keyed(must, Some(key))).len() > 1 implies
            query::paths_agree(
            query::clause_path_indexes(boolean_query::keyed(must, Some(key)), doc),
        ) by {
            assert(trees::all_know_one(asked(occurs, docsets, key, doc)));
        }
    }
}

proof fn lemma_field_agrees(
    occurs: Seq<Occur>,
    docsets: Seq<ScorerTree>,
    key: JsonConstraintKey,
    doc: DocId,
)
    requires
        docsets.len() == occurs.len(),
    ensures
        ({
            let group = boolean_query::keyed(
                boolean_query::of_occur(occurs, docsets, Occur::Must),
                Some(key),
            );
            (group.len() > 1 ==> query::paths_agree(query::clause_path_indexes(group, doc)))
                <==> trees::all_know_one(
                asked(occurs, docsets, key, doc),
            )
        }),
{
    let must = boolean_query::of_occur(occurs, docsets, Occur::Must);
    let group = boolean_query::keyed(must, Some(key));
    let clauses = query::clause_path_indexes(group, doc);
    let indexes = asked(occurs, docsets, key, doc);
    trees::lemma_agreement(clauses);
    assert forall|index: u32| #[trigger]
        trees::known_to_all(clauses, index) <==> trees::known_to_all(indexes, index) by {
        if trees::known_to_all(clauses, index) {
            assert forall|i: int|
                #![trigger indexes[i]]
                0 <= i < indexes.len() && indexes[i] is Some && indexes[i]->0.len()
                    > 0 implies indexes[i]->0.contains(index) by {
                let tree = docsets[i];
                lemma_clauses_of_field(occurs, docsets, Some(key), tree);
                assert(group.contains(tree));
                let j = choose|j: int| 0 <= j < group.len() && group[j] == tree;
                assert(clauses[j] == indexes[i]);
            }
        }
        if trees::known_to_all(indexes, index) {
            assert forall|j: int|
                #![trigger clauses[j]]
                0 <= j < clauses.len() && clauses[j] is Some && clauses[j]->0.len()
                    > 0 implies clauses[j]->0.contains(index) by {
                let tree = group[j];
                assert(group.contains(tree));
                lemma_clauses_of_field(occurs, docsets, Some(key), tree);
                let i = choose|i: int|
                    #![trigger docsets[i]]
                    0 <= i < docsets.len() && occurs[i] == Occur::Must && docsets[i] == tree;
                assert(indexes[i] == clauses[j]);
            }
        }
    }
    if trees::all_know_one(clauses) {
        let index = choose|index: u32| trees::known_to_all(clauses, index);
        assert(trees::known_to_all(indexes, index));
    }
    if trees::all_know_one(indexes) {
        let index = choose|index: u32| trees::known_to_all(indexes, index);
        assert(trees::known_to_all(clauses, index));
    }
    if group.len() <= 1 {
        let index = if group.len() == 1 && clauses[0] is Some && clauses[0]->0.len() > 0 {
            clauses[0]->0[0]
        } else {
            0u32
        };
        if group.len() == 1 && clauses[0] is Some && clauses[0]->0.len() > 0 {
            assert(clauses[0]->0.contains(clauses[0]->0[0]));
        }
        assert(trees::known_to_all(clauses, index));
    }
}

/// What a combination of clauses accepts, wherever its clauses stand:
/// - there is a clause that has to match or may;
/// - each clause that has to match does;
/// - no clause that must not match does;
/// - as many of the clauses that may match do as have to, and at least one where none has to
///   match;
/// - the clauses of each JSON field that have to match, and know of path ids, have one in
///   common.
pub proof fn lemma_accepts_each(
    combination: Combination,
    occurs: Seq<Occur>,
    docsets: Seq<ScorerTree>,
    doc: DocId,
)
    requires
        docsets.len() == occurs.len(),
    ensures
        combination.accepts(
            boolean_query::of_occur(occurs, docsets, Occur::Must),
            boolean_query::of_occur(occurs, docsets, Occur::Should),
            boolean_query::of_occur(occurs, docsets, Occur::MustNot),
            doc,
        ) <==> {
            &&& exists|i: int|
                #![trigger occurs[i]]
                0 <= i < occurs.len() && occurs[i] != Occur::MustNot
            &&& forall|i: int|
                #![trigger docsets[i]]
                0 <= i < docsets.len() && occurs[i] == Occur::Must ==> docsets[i].matches(doc)
            &&& forall|i: int|
                #![trigger docsets[i]]
                0 <= i < docsets.len() && occurs[i] == Occur::MustNot ==> !docsets[i].matches(doc)
            &&& occurs.zip_with(docsets).filter(
                |clause: (Occur, ScorerTree)| clause.0 == Occur::Should && clause.1.matches(doc),
            ).len() >= combination.minimum_number_should_match
            &&& (exists|i: int|
                #![trigger occurs[i]]
                0 <= i < occurs.len() && occurs[i] == Occur::Must) || exists|i: int|
                #![trigger docsets[i]]
                0 <= i < docsets.len() && occurs[i] == Occur::Should && docsets[i].matches(doc)
            &&& forall|key: JsonConstraintKey|
                #![trigger asked(occurs, docsets, key, doc)]
                trees::all_know_one(
                    asked(occurs, docsets, key, doc),
                )
        },
{
    let must = boolean_query::of_occur(occurs, docsets, Occur::Must);
    let should = boolean_query::of_occur(occurs, docsets, Occur::Should);
    let must_not = boolean_query::of_occur(occurs, docsets, Occur::MustNot);
    lemma_fields_agree(occurs, docsets, doc);
    lemma_num_matching_of_kind(occurs, docsets, Occur::Should, doc);
    trees::lemma_some_matching(should, doc);
    trees::lemma_some_matching(must_not, doc);
    lemma_some_of_kind(occurs, docsets, Occur::Must);
    lemma_some_of_kind(occurs, docsets, Occur::Should);
    lemma_any_of_kind(occurs, docsets, Occur::Should, doc);
    lemma_any_of_kind(occurs, docsets, Occur::MustNot, doc);
    lemma_all_of_kind(occurs, docsets, Occur::Must, doc);
    if exists|i: int| #![trigger occurs[i]] 0 <= i < occurs.len() && occurs[i] != Occur::MustNot {
        let i = choose|i: int|
            #![trigger occurs[i]]
            0 <= i < occurs.len() && occurs[i] != Occur::MustNot;
        assert(occurs[i] == Occur::Must || occurs[i] == Occur::Should);
    }
    if must.len() > 0 {
        let i = choose|i: int|
            #![trigger occurs[i]]
            0 <= i < occurs.len() && occurs[i] == Occur::Must;
        assert(occurs[i] != Occur::MustNot);
    }
    if should.len() > 0 {
        let i = choose|i: int|
            #![trigger occurs[i]]
            0 <= i < occurs.len() && occurs[i] == Occur::Should;
        assert(occurs[i] != Occur::MustNot);
    }
}

/// There are clauses of a kind where one has it.
proof fn lemma_some_of_kind(occurs: Seq<Occur>, docsets: Seq<ScorerTree>, occur: Occur)
    requires
        docsets.len() == occurs.len(),
    ensures
        boolean_query::of_occur(occurs, docsets, occur).len() > 0 <==> exists|i: int|
            #![trigger occurs[i]]
            0 <= i < occurs.len() && occurs[i] == occur,
{
    let found = boolean_query::of_occur(occurs, docsets, occur);
    if found.len() > 0 {
        lemma_clause_of_kind(occurs, docsets, occur, found[0]);
        assert(found.contains(found[0]));
        let i = choose|i: int|
            #![trigger docsets[i]]
            0 <= i < docsets.len() && occurs[i] == occur && docsets[i] == found[0];
        assert(occurs[i] == occur);
    }
    if exists|i: int| #![trigger occurs[i]] 0 <= i < occurs.len() && occurs[i] == occur {
        let i = choose|i: int| #![trigger occurs[i]] 0 <= i < occurs.len() && occurs[i] == occur;
        lemma_clause_of_kind(occurs, docsets, occur, docsets[i]);
        assert(found.contains(docsets[i]));
    }
}

/// Some clause of a kind matches where one that has the kind does.
proof fn lemma_any_of_kind(
    occurs: Seq<Occur>,
    docsets: Seq<ScorerTree>,
    occur: Occur,
    doc: DocId,
)
    requires
        docsets.len() == occurs.len(),
    ensures
        ({
            let found = boolean_query::of_occur(occurs, docsets, occur);
            (exists|j: int|
                #![trigger found[j]]
                0 <= j < found.len() && found[j].matches(doc)) <==> exists|i: int|
                #![trigger docsets[i]]
                0 <= i < docsets.len() && occurs[i] == occur && docsets[i].matches(doc)
        }),
{
    let found = boolean_query::of_occur(occurs, docsets, occur);
    if exists|j: int| #![trigger found[j]] 0 <= j < found.len() && found[j].matches(doc) {
        let j = choose|j: int| #![trigger found[j]] 0 <= j < found.len() && found[j].matches(doc);
        lemma_clause_of_kind(occurs, docsets, occur, found[j]);
        assert(found.contains(found[j]));
        let i = choose|i: int|
            #![trigger docsets[i]]
            0 <= i < docsets.len() && occurs[i] == occur && docsets[i] == found[j];
        assert(docsets[i].matches(doc));
    }
    if exists|i: int|
        #![trigger docsets[i]]
        0 <= i < docsets.len() && occurs[i] == occur && docsets[i].matches(doc) {
        let i = choose|i: int|
            #![trigger docsets[i]]
            0 <= i < docsets.len() && occurs[i] == occur && docsets[i].matches(doc);
        lemma_clause_of_kind(occurs, docsets, occur, docsets[i]);
        assert(found.contains(docsets[i]));
        let j = choose|j: int| 0 <= j < found.len() && found[j] == docsets[i];
        assert(found[j].matches(doc));
    }
}

/// All clauses of a kind match where each that has the kind does.
proof fn lemma_all_of_kind(
    occurs: Seq<Occur>,
    docsets: Seq<ScorerTree>,
    occur: Occur,
    doc: DocId,
)
    requires
        docsets.len() == occurs.len(),
    ensures
        boolean_query::all_match(boolean_query::of_occur(occurs, docsets, occur), doc)
            <==> forall|i: int|
            #![trigger docsets[i]]
            0 <= i < docsets.len() && occurs[i] == occur ==> docsets[i].matches(doc),
{
    let found = boolean_query::of_occur(occurs, docsets, occur);
    if boolean_query::all_match(found, doc) {
        assert forall|i: int|
            #![trigger docsets[i]]
            0 <= i < docsets.len() && occurs[i] == occur implies docsets[i].matches(doc) by {
            lemma_clause_of_kind(occurs, docsets, occur, docsets[i]);
            assert(found.contains(docsets[i]));
            let j = choose|j: int| 0 <= j < found.len() && found[j] == docsets[i];
            assert(found[j].matches(doc));
        }
    }
    if forall|i: int|
        #![trigger docsets[i]]
        0 <= i < docsets.len() && occurs[i] == occur ==> docsets[i].matches(doc) {
        assert forall|j: int| 0 <= j < found.len() implies (#[trigger] found[j]).matches(doc) by {
            lemma_clause_of_kind(occurs, docsets, occur, found[j]);
            assert(found.contains(found[j]));
            let i = choose|i: int|
                #![trigger docsets[i]]
                0 <= i < docsets.len() && occurs[i] == occur && docsets[i] == found[j];
            assert(docsets[i].matches(doc));
        }
    }
}

/// What the weight of a boolean query finds, in terms of what its clauses find, `occurs` being
/// what each has to do with a match, and `parts` what its scorer goes through. The documents
/// visited with scores or without are these for any number of clauses, and those of the scorer
/// where there are several.
pub proof fn lemma_boolean_weight_finds(
    weight: BooleanWeight,
    reader: SegmentReader,
    score_combiner: ScoreCombiner,
    union_combiner: ScoreCombiner,
    tree: ScorerTree,
    occurs: Seq<Occur>,
    parts: Seq<ScorerTree>,
    doc: DocId,
)
    requires
        weight.visits(reader, score_combiner, union_combiner, tree) || (weight.weights@.len() > 1
            && Weight::Boolean(weight).builds(reader, tree)),
        occurs.len() == weight.weights@.len(),
        parts.len() == weight.weights@.len(),
        forall|i: int|
            #![trigger weight.weights@[i]]
            #![trigger occurs[i]]
            #![trigger parts[i]]
            0 <= i < weight.weights@.len() ==> occurs[i] == weight.weights@[i].0
                && weight.weights@[i].1.builds(reader, parts[i]),
    ensures
        tree.matches(doc) <==> {
            &&& exists|i: int|
                #![trigger occurs[i]]
                0 <= i < occurs.len() && occurs[i] != Occur::MustNot
            &&& forall|i: int|
                #![trigger parts[i]]
                0 <= i < parts.len() && occurs[i] == Occur::Must ==> parts[i].matches(doc)
            &&& forall|i: int|
                #![trigger parts[i]]
                0 <= i < parts.len() && occurs[i] == Occur::MustNot ==> !parts[i].matches(doc)
            &&& occurs.zip_with(parts).filter(
                |clause: (Occur, ScorerTree)| clause.0 == Occur::Should && clause.1.matches(doc),
            ).len() >= weight.minimum_number_should_match
            &&& (exists|i: int|
                #![trigger occurs[i]]
                0 <= i < occurs.len() && occurs[i] == Occur::Must) || exists|i: int|
                #![trigger parts[i]]
                0 <= i < parts.len() && occurs[i] == Occur::Should && parts[i].matches(doc)
            &&& forall|key: JsonConstraintKey|
                #![trigger asked(occurs, parts, key, doc)]
                trees::all_know_one(asked(occurs, parts, key, doc))
        },
{
    assert(weight.occurs() =~= occurs);
    documents::lemma_each_clause_builds(weight.weights@, reader, parts);
    if weight.visits(reader, score_combiner, union_combiner, tree) {
        weight::lemma_visited_documents(
            weight,
            reader,
            score_combiner,
            union_combiner,
            tree,
            parts,
            doc,
        );
    } else {
        weight::lemma_scorer_visits(weight, reader, tree);
        weight::lemma_visited_documents(
            weight,
            reader,
            weight.combiner(),
            weight.combiner(),
            tree,
            parts,
            doc,
        );
    }
    lemma_accepts_each(
        weight.combination(weight.combiner(), reader.num_docs),
        occurs,
        parts,
        doc,
    );
}

/// Taking items out of a sequence takes as many out of it in any order.
proof fn lemma_filter_to_multiset<T>(items: Seq<T>, kept: spec_fn(T) -> bool)
    ensures
        items.filter(kept).to_multiset() == items.to_multiset().filter(kept),
    decreases items.len(),
{
    reveal(Seq::filter);
    broadcast use vstd::multiset::group_multiset_axioms;
    if items.len() > 0 {
        let rest = items.drop_last();
        let last = items.last();
        lemma_filter_to_multiset(rest, kept);
        assert(items =~= rest.push(last));
        vstd::seq_lib::to_multiset_build(rest, last);
        vstd::seq_lib::to_multiset_build(rest.filter(kept), last);
        assert(items.filter(kept).to_multiset() =~= items.to_multiset().filter(kept));
    } else {
        items.to_multiset_ensures();
        items.filter(kept).to_multiset_ensures();
        assert(items.filter(kept).to_multiset() =~= items.to_multiset().filter(kept));
    }
}

/// In which order the clauses stand makes no difference to what is accepted.
pub proof fn lemma_order_of_clauses(
    combination: Combination,
    occurs: Seq<Occur>,
    docsets: Seq<ScorerTree>,
    other_occurs: Seq<Occur>,
    other_docsets: Seq<ScorerTree>,
    doc: DocId,
)
    requires
        docsets.len() == occurs.len(),
        other_docsets.len() == other_occurs.len(),
        occurs.zip_with(docsets).to_multiset() == other_occurs.zip_with(
            other_docsets,
        ).to_multiset(),
    ensures
        combination.accepts(
            boolean_query::of_occur(occurs, docsets, Occur::Must),
            boolean_query::of_occur(occurs, docsets, Occur::Should),
            boolean_query::of_occur(occurs, docsets, Occur::MustNot),
            doc,
        ) <==> combination.accepts(
            boolean_query::of_occur(other_occurs, other_docsets, Occur::Must),
            boolean_query::of_occur(other_occurs, other_docsets, Occur::Should),
            boolean_query::of_occur(other_occurs, other_docsets, Occur::MustNot),
            doc,
        ),
{
    if combination.accepts(
        boolean_query::of_occur(occurs, docsets, Occur::Must),
        boolean_query::of_occur(occurs, docsets, Occur::Should),
        boolean_query::of_occur(occurs, docsets, Occur::MustNot),
        doc,
    ) {
        lemma_accepts_rearranged(combination, occurs, docsets, other_occurs, other_docsets, doc);
    } else if combination.accepts(
        boolean_query::of_occur(other_occurs, other_docsets, Occur::Must),
        boolean_query::of_occur(other_occurs, other_docsets, Occur::Should),
        boolean_query::of_occur(other_occurs, other_docsets, Occur::MustNot),
        doc,
    ) {
        lemma_accepts_rearranged(combination, other_occurs, other_docsets, occurs, docsets, doc);
    }
}

proof fn lemma_accepts_rearranged(
    combination: Combination,
    occurs: Seq<Occur>,
    docsets: Seq<ScorerTree>,
    other_occurs: Seq<Occur>,
    other_docsets: Seq<ScorerTree>,
    doc: DocId,
)
    requires
        docsets.len() == occurs.len(),
        other_docsets.len() == other_occurs.len(),
        occurs.zip_with(docsets).to_multiset() == other_occurs.zip_with(
            other_docsets,
        ).to_multiset(),
        combination.accepts(
            boolean_query::of_occur(occurs, docsets, Occur::Must),
            boolean_query::of_occur(occurs, docsets, Occur::Should),
            boolean_query::of_occur(occurs, docsets, Occur::MustNot),
            doc,
        ),
    ensures
        combination.accepts(
            boolean_query::of_occur(other_occurs, other_docsets, Occur::Must),
            boolean_query::of_occur(other_occurs, other_docsets, Occur::Should),
            boolean_query::of_occur(other_occurs, other_docsets, Occur::MustNot),
            doc,
        ),
{
    let clauses = occurs.zip_with(docsets);
    let others = other_occurs.zip_with(other_docsets);
    let counted = |clause: (Occur, ScorerTree)|
        clause.0 == Occur::Should && clause.1.matches(doc);
    lemma_accepts_each(combination, occurs, docsets, doc);
    lemma_accepts_each(combination, other_occurs, other_docsets, doc);
    lemma_filter_to_multiset(clauses, counted);
    lemma_filter_to_multiset(others, counted);
    vstd::seq_lib::to_multiset_len(clauses.filter(counted));
    vstd::seq_lib::to_multiset_len(others.filter(counted));
    assert forall|i: int| 0 <= i < others.len() implies exists|j: int|
        0 <= j < clauses.len() && clauses[j] == #[trigger] others[i] by {
        assert(others.contains(others[i]));
        vstd::seq_lib::to_multiset_contains(others, others[i]);
        vstd::seq_lib::to_multiset_contains(clauses, others[i]);
        assert(clauses.contains(others[i]));
    }
    assert forall|j: int| 0 <= j < clauses.len() implies exists|i: int|
        0 <= i < others.len() && others[i] == #[trigger] clauses[j] by {
        assert(clauses.contains(clauses[j]));
        vstd::seq_lib::to_multiset_contains(clauses, clauses[j]);
        vstd::seq_lib::to_multiset_contains(others, clauses[j]);
        assert(others.contains(clauses[j]));
    }
    assert forall|i: int|
        #![trigger other_docsets[i]]
        0 <= i < other_docsets.len() implies (other_occurs[i] == Occur::Must
        ==> other_docsets[i].matches(doc)) && (other_occurs[i] == Occur::MustNot
        ==> !other_docsets[i].matches(doc)) by {
        assert(others[i] == (other_occurs[i], other_docsets[i]));
        let j = choose|j: int| 0 <= j < clauses.len() && clauses[j] == others[i];
        assert(clauses[j] == (occurs[j], docsets[j]));
    }
    let positive = choose|i: int|
        #![trigger occurs[i]]
        0 <= i < occurs.len() && occurs[i] != Occur::MustNot;
    let at = choose|i: int| 0 <= i < others.len() && others[i] == clauses[positive];
    assert(other_occurs[at] == occurs[positive]);
    if exists|i: int| #![trigger occurs[i]] 0 <= i < occurs.len() && occurs[i] == Occur::Must {
        let must = choose|i: int|
            #![trigger occurs[i]]
            0 <= i < occurs.len() && occurs[i] == Occur::Must;
        let i = choose|i: int| 0 <= i < others.len() && others[i] == clauses[must];
        assert(other_occurs[i] == Occur::Must);
    } else {
        let should = choose|i: int|
            #![trigger docsets[i]]
            0 <= i < docsets.len() && occurs[i] == Occur::Should && docsets[i].matches(doc);
        let i = choose|i: int| 0 <= i < others.len() && others[i] == clauses[should];
        assert(other_docsets[i] == docsets[should]);
        assert(other_occurs[i] == occurs[should]);
    }
    assert forall|key: JsonConstraintKey|
        #![trigger asked(other_occurs, other_docsets, key, doc)]
        trees::all_know_one(asked(other_occurs, other_docsets, key, doc)) by {
        let indexes = asked(occurs, docsets, key, doc);
        let other_indexes = asked(other_occurs, other_docsets, key, doc);
        assert(trees::all_know_one(indexes));
        let index = choose|index: u32| trees::known_to_all(indexes, index);
        assert forall|i: int|
            #![trigger other_indexes[i]]
            0 <= i < other_indexes.len() && other_indexes[i] is Some && other_indexes[i]->0.len()
                > 0 implies other_indexes[i]->0.contains(index) by {
            assert(others[i] == (other_occurs[i], other_docsets[i]));
            let j = choose|j: int| 0 <= j < clauses.len() && clauses[j] == others[i];
            assert(clauses[j] == (occurs[j], docsets[j]));
            assert(indexes[j] == other_indexes[i]);
        }
        assert(trees::known_to_all(other_indexes, index));
    }
}

} // verus!
