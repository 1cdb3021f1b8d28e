//! What scorers find, read off their trees part by part.
use vstd::prelude::*;

use crate::docset::{DocId, TERMINATED};
use crate::json_metadata::JsonArrayPath;
use crate::query;
use crate::query::postings;
use crate::query::postings::Postings;
use crate::query::{Scorer, ScorerTree};

verus! {

/// The trees of several scorers are those of each, in order.
pub proof fn lemma_trees_of_each(scorers: Seq<Scorer>)
    ensures
        query::trees(scorers).len() == scorers.len(),
        forall|i: int|
            #![trigger query::trees(scorers)[i]]
            #![trigger scorers[i]]
            0 <= i < scorers.len() ==> query::trees(scorers)[i] == scorers[i].tree(),
{
}

/// How many trees match a document is how many are left of them when those that do not are
/// taken out.
pub proof fn lemma_num_matching_counts(docsets: Seq<ScorerTree>, doc: DocId)
    ensures
        query::num_matching(docsets, doc) == docsets.filter(
            |docset: ScorerTree| docset.matches(doc),
        ).len(),
    decreases docsets.len(),
{
    reveal(Seq::filter);
    let kept = |docset: ScorerTree| docset.matches(doc);
    if docsets.len() > 0 {
        lemma_num_matching_counts(docsets.drop_last(), doc);
    }
}

/// At least one tree is counted where one matches.
pub proof fn lemma_some_matching(docsets: Seq<ScorerTree>, doc: DocId)
    ensures
        query::num_matching(docsets, doc) > 0 <==> exists|i: int|
            #![trigger docsets[i]]
            0 <= i < docsets.len() && docsets[i].matches(doc),
        query::num_matching(docsets, doc) <= docsets.len(),
    decreases docsets.len(),
{
    if docsets.len() > 0 {
        let rest = docsets.drop_last();
        lemma_some_matching(rest, doc);
        assert(docsets.last() == docsets[docsets.len() - 1]);
        if exists|i: int| #![trigger rest[i]] 0 <= i < rest.len() && rest[i].matches(doc) {
            let i = choose|i: int| #![trigger rest[i]] 0 <= i < rest.len() && rest[i].matches(doc);
            assert(docsets[i].matches(doc));
        }
        if exists|i: int| #![trigger docsets[i]] 0 <= i < docsets.len() && docsets[i].matches(doc) {
            let i = choose|i: int|
                #![trigger docsets[i]]
                0 <= i < docsets.len() && docsets[i].matches(doc);
            if i < rest.len() {
                assert(rest[i].matches(doc));
            }
        }
    }
}

/// True when `path` is one of the paths of each clause that knows of any.
pub open spec fn known_to_all<T>(clauses: Seq<Option<Seq<T>>>, path: T) -> bool {
    forall|i: int|
        #![trigger clauses[i]]
        0 <= i < clauses.len() && clauses[i] is Some && clauses[i]->0.len() > 0
            ==> clauses[i]->0.contains(path)
}

/// True when there is a path that is one of those of each clause that knows of any.
pub open spec fn all_know_one<T>(clauses: Seq<Option<Seq<T>>>) -> bool {
    exists|path: T| known_to_all(clauses, path)
}

/// Clauses agree on a path where there is one that each of them has that has any: those that
/// know of no path are not asked.
pub proof fn lemma_agreement<T>(clauses: Seq<Option<Seq<T>>>)
    ensures
        query::paths_agree(clauses) <==> all_know_one(clauses),
{
    if query::paths_agree(clauses) {
        if exists|path: T| query::is_common_path(clauses, path) {
            let path = choose|path: T| query::is_common_path(clauses, path);
            assert forall|i: int|
                #![trigger clauses[i]]
                0 <= i < clauses.len() && clauses[i] is Some && clauses[i]->0.len()
                    > 0 implies clauses[i]->0.contains(path) by {
                assert(query::restricts(clauses[i]));
            }
            assert(known_to_all(clauses, path));
        } else {
            let path = vstd::pervasive::arbitrary::<T>();
            assert forall|i: int|
                #![trigger clauses[i]]
                0 <= i < clauses.len() && clauses[i] is Some && clauses[i]->0.len()
                    > 0 implies clauses[i]->0.contains(path) by {
                assert(query::restricts(clauses[i]));
            }
            assert(known_to_all(clauses, path));
        }
    }
    if exists|path: T| known_to_all(clauses, path) {
        let path = choose|path: T| known_to_all(clauses, path);
        assert(query::is_common_path(clauses, path));
    }
}

/// The paths and path ids of several clauses are those of each, in order.
pub proof fn lemma_clauses_of_each(docsets: Seq<ScorerTree>, doc: DocId)
    ensures
        query::clause_paths(docsets, doc).len() == docsets.len(),
        query::clause_path_indexes(docsets, doc).len() == docsets.len(),
        forall|i: int|
            #![trigger docsets[i]]
            0 <= i < docsets.len() ==> query::clause_paths(docsets, doc)[i]
                == docsets[i].json_array_paths(doc) && query::clause_path_indexes(docsets, doc)[i]
                == docsets[i].json_array_path_indexes(doc),
{
}

/// Which documents a scorer goes through, in terms of those that its parts do.
pub proof fn lemma_matches(tree: ScorerTree, doc: DocId)
    ensures
        tree.matches(doc) <==> match tree {
            ScorerTree::Empty => false,
            ScorerTree::Term { leaf, .. } => leaf.postings.docs.contains(doc),
            ScorerTree::Phrase { leaf, .. } => leaf.postings.docs.contains(doc),
            ScorerTree::Other { leaf } => leaf.postings.docs.contains(doc),
            ScorerTree::Passthrough { inner } => inner.matches(doc),
            ScorerTree::Union { docsets, .. } => exists|i: int|
                #![trigger docsets[i]]
                0 <= i < docsets.len() && docsets[i].matches(doc),
            ScorerTree::Disjunction { docsets, minimum_match_required, .. } => docsets.filter(
                |docset: ScorerTree| docset.matches(doc),
            ).len() >= minimum_match_required,
            ScorerTree::Intersection { docsets, .. } => docsets.len() > 0 && forall|i: int|
                #![trigger docsets[i]]
                0 <= i < docsets.len() ==> docsets[i].matches(doc),
            ScorerTree::RequiredOptional { required, .. } => required.matches(doc),
            ScorerTree::Exclude { underlying, excluding } => underlying.matches(doc)
                && !excluding.matches(doc),
            ScorerTree::JsonPaths { docsets, .. } => {
                &&& docsets.len() > 0
                &&& forall|i: int|
                    #![trigger docsets[i]]
                    0 <= i < docsets.len() ==> docsets[i].matches(doc)
                &&& all_know_one(
                    Seq::new(docsets.len(), |i: int| docsets[i].json_array_paths(doc)),
                )
            },
            ScorerTree::JsonPathIndexes { docsets, .. } => {
                &&& docsets.len() > 0
                &&& forall|i: int|
                    #![trigger docsets[i]]
                    0 <= i < docsets.len() ==> docsets[i].matches(doc)
                &&& all_know_one(
                    Seq::new(docsets.len(), |i: int| docsets[i].json_array_path_indexes(doc)),
                )
            },
        },
{
    reveal_with_fuel(ScorerTree::matches, 2);
    match tree {
        ScorerTree::Union { docsets, .. } => {
            lemma_some_matching(docsets, doc);
        },
        ScorerTree::Disjunction { docsets, .. } => {
            lemma_num_matching_counts(docsets, doc);
        },
        ScorerTree::JsonPaths { docsets, .. } => {
            let clauses = query::clause_paths(docsets, doc);
            lemma_agreement(clauses);
            assert(clauses =~= Seq::new(
                docsets.len(),
                |i: int| docsets[i].json_array_paths(doc),
            ));
        },
        ScorerTree::JsonPathIndexes { docsets, .. } => {
            let clauses = query::clause_path_indexes(docsets, doc);
            lemma_agreement(clauses);
            assert(clauses =~= Seq::new(
                docsets.len(),
                |i: int| docsets[i].json_array_path_indexes(doc),
            ));
        },
        _ => {},
    }
}

/// A term and a phrase know of the paths and path ids that their postings have for the
/// document, whichever of the documents it is. Nothing else knows of any, and nothing is known
/// of a document that is not there.
pub proof fn lemma_known_paths(tree: ScorerTree, postings: Postings, doc: DocId)
    requires
        match tree {
            ScorerTree::Term { leaf, .. } => postings == leaf.postings,
            ScorerTree::Phrase { leaf, .. } => postings == leaf.postings,
            _ => true,
        },
        postings.ordered(),
    ensures
        tree is Term || tree is Phrase ==> {
            &&& forall|i: int|
                #![trigger postings.docs[i]]
                0 <= i < postings.docs.len() && postings.docs[i] == doc
                    ==> tree.json_array_paths(doc) == postings.json_paths[i]
                    && tree.json_array_path_indexes(doc) == postings.json_path_indexes[i]
            &&& !postings.docs.contains(doc) ==> tree.json_array_paths(doc) is None
                && tree.json_array_path_indexes(doc) is None
        },
        !(tree is Term || tree is Phrase) ==> tree.json_array_paths(doc) is None
            && tree.json_array_path_indexes(doc) is None,
{
    assert forall|i: int|
        #![trigger postings.docs[i]]
        0 <= i < postings.docs.len() && postings.docs[i] == doc implies postings.docs.index_of(doc)
        == i && postings.docs.contains(doc) by {
        let j = postings.docs.index_of(doc);
        assert(postings.docs[j] == doc);
        if i < j {
            assert(postings.docs[i] < postings.docs[j]);
        }
        if j < i {
            assert(postings.docs[j] < postings.docs[i]);
        }
    }
}

/// Postings are in order where there are as many paths and path ids as documents, each document
/// is before the next, and none is behind the last that can be.
pub proof fn lemma_ordered(postings: Postings)
    ensures
        postings.ordered() <==> {
            &&& postings.json_paths.len() == postings.docs.len()
            &&& postings.json_path_indexes.len() == postings.docs.len()
            &&& forall|i: int|
                #![trigger postings.docs[i]]
                0 <= i < postings.docs.len() ==> postings.docs[i] < 0x7fff_ffff
            &&& forall|i: int|
                #![trigger postings.docs[i]]
                0 < i < postings.docs.len() ==> postings.docs[i - 1] < postings.docs[i]
        },
{
    if forall|i: int|
        #![trigger postings.docs[i]]
        0 < i < postings.docs.len() ==> postings.docs[i - 1] < postings.docs[i] {
        assert forall|i: int, j: int| 0 <= i < j < postings.docs.len() implies postings.docs[i]
            < postings.docs[j] by {
            lemma_docs_ascend(postings.docs, i, j);
        }
    }
    if postings.ordered() {
        assert forall|i: int|
            #![trigger postings.docs[i]]
            0 < i < postings.docs.len() implies postings.docs[i - 1] < postings.docs[i] by {}
    }
}

proof fn lemma_docs_ascend(docs: Seq<DocId>, i: int, j: int)
    requires
        0 <= i < j < docs.len(),
        forall|k: int| #![trigger docs[k]] 0 < k < docs.len() ==> docs[k - 1] < docs[k],
    ensures
        docs[i] < docs[j],
    decreases j - i,
{
    assert(docs[j - 1] < docs[j]);
    if i < j - 1 {
        lemma_docs_ascend(docs, i, j - 1);
    }
}

/// Postings made of vectors have what these have, one by one.
pub proof fn lemma_postings_of_each(
    docs: Seq<DocId>,
    json_paths: Seq<Option<Vec<JsonArrayPath>>>,
    json_path_indexes: Seq<Option<Vec<u32>>>,
)
    ensures
        ({
            let found = postings::postings_of(docs, json_paths, json_path_indexes);
            &&& found.docs == docs
            &&& found.json_paths.len() == json_paths.len()
            &&& found.json_path_indexes.len() == json_path_indexes.len()
            &&& forall|i: int|
                #![trigger json_paths[i]]
                0 <= i < json_paths.len() ==> match json_paths[i] {
                    Some(paths) => {
                        &&& found.json_paths[i] is Some
                        &&& found.json_paths[i]->0.len() == paths@.len()
                        &&& forall|j: int|
                            0 <= j < paths@.len() ==> (#[trigger] found.json_paths[i]->0[j])
                                == paths@[j]@
                    },
                    None => found.json_paths[i] is None,
                }
            &&& forall|i: int|
                #![trigger json_path_indexes[i]]
                0 <= i < json_path_indexes.len() ==> match json_path_indexes[i] {
                    Some(indexes) => found.json_path_indexes[i] == Some(indexes@),
                    None => found.json_path_indexes[i] is None,
                }
        }),
{
}

/// Where a scorer that had not moved yet has moved to `from` and stands on `doc`, that is the
/// first document of its tree that is not before `from`, or the end where there is none.
pub proof fn lemma_found(before: Scorer, after: Scorer, from: int, doc: DocId)
    requires
        before.fresh(),
        query::moved_to(before, after, from),
        after.stands_on(doc),
    ensures
        after.tree() == before.tree(),
        doc == 0x7fff_ffff || (doc < 0x7fff_ffff && before.tree().matches(doc) && doc >= from),
        forall|other: DocId| #[trigger]
            before.tree().matches(other) && other >= from ==> doc <= other < 0x7fff_ffff,
{
    assert forall|other: DocId| #[trigger]
        before.tree().matches(other) && other >= from implies doc <= other < 0x7fff_ffff by {
        assert(before.has(other));
        assert(after.has(other));
    }
    if doc < TERMINATED {
        assert(after.has(doc));
        assert(before.has(doc));
    }
}

/// Moves add up: a scorer that moves on has the documents that it would have if it had moved
/// there at once.
pub proof fn lemma_moves_add_up(
    before: Scorer,
    between: Scorer,
    after: Scorer,
    from: int,
    further: int,
)
    requires
        query::moved_to(before, between, from),
        query::moved_to(between, after, further),
    ensures
        after.tree() == before.tree(),
        forall|doc: DocId| #[trigger]
            after.has(doc) <==> before.has(doc) && doc >= from && doc >= further,
{
    assert forall|doc: DocId| #[trigger]
        after.has(doc) <==> before.has(doc) && doc >= from && doc >= further by {
        assert(between.has(doc) <==> before.has(doc) && doc >= from);
    }
}

/// A scorer stands on the first document that it has, or on the end where it has none.
pub proof fn lemma_stands_on_first(scorer: Scorer, doc: DocId)
    ensures
        scorer.stands_on(doc) <==> {
            &&& doc == 0x7fff_ffff || (doc < 0x7fff_ffff && scorer.has(doc))
            &&& forall|other: DocId| #[trigger] scorer.has(other) ==> doc <= other < 0x7fff_ffff
        },
{
}

/// How many documents a scorer goes through, roughly, and what that costs.
pub proof fn lemma_hints(tree: ScorerTree)
    ensures
        match tree {
            ScorerTree::Empty => tree.size_hint() == 0 && tree.cost() == 0,
            ScorerTree::Term { leaf, .. } => leaf_hints(tree, leaf.postings),
            ScorerTree::Phrase { leaf, .. } => leaf_hints(tree, leaf.postings),
            ScorerTree::Other { leaf } => leaf_hints(tree, leaf.postings),
            ScorerTree::Passthrough { inner } => tree.size_hint() == inner.size_hint()
                && tree.cost() == inner.cost(),
            ScorerTree::RequiredOptional { required, .. } => tree.size_hint()
                == required.size_hint() && tree.cost() == required.cost(),
            ScorerTree::Exclude { underlying, .. } => tree.size_hint() == underlying.size_hint()
                && tree.cost() == underlying.cost(),
            ScorerTree::Intersection { docsets, .. } => least_hints(tree, docsets),
            ScorerTree::JsonPaths { docsets, .. } => least_hints(tree, docsets),
            ScorerTree::JsonPathIndexes { docsets, .. } => least_hints(tree, docsets),
            _ => true,
        },
{
    reveal_with_fuel(ScorerTree::size_hint, 2);
    reveal_with_fuel(ScorerTree::cost, 2);
    match tree {
        ScorerTree::Intersection { docsets, .. } => {
            lemma_least(docsets);
        },
        ScorerTree::JsonPaths { docsets, .. } => {
            lemma_least(docsets);
        },
        ScorerTree::JsonPathIndexes { docsets, .. } => {
            lemma_least(docsets);
        },
        _ => {},
    }
}

/// True when the size of a leaf is the number of its documents, as far as that fits.
pub open spec fn leaf_hints(tree: ScorerTree, postings: Postings) -> bool {
    &&& postings.docs.len() <= u32::MAX ==> tree.size_hint() == postings.docs.len()
    &&& postings.docs.len() > u32::MAX ==> tree.size_hint() == u32::MAX
    &&& tree.cost() == tree.size_hint()
}

/// True when the size is the least of the sizes of `docsets`, and the cost that of the first.
pub open spec fn least_hints(tree: ScorerTree, docsets: Seq<ScorerTree>) -> bool {
    docsets.len() > 0 ==> {
        &&& forall|i: int|
            #![trigger docsets[i]]
            0 <= i < docsets.len() ==> tree.size_hint() <= docsets[i].size_hint()
        &&& exists|i: int|
            #![trigger docsets[i]]
            0 <= i < docsets.len() && tree.size_hint() == docsets[i].size_hint()
        &&& tree.cost() == docsets[0].cost()
    }
}

proof fn lemma_least(docsets: Seq<ScorerTree>)
    ensures
        docsets.len() > 0 ==> {
            &&& forall|i: int|
                #![trigger docsets[i]]
                0 <= i < docsets.len() ==> query::least_size_hint(docsets)
                    <= docsets[i].size_hint()
            &&& exists|i: int|
                #![trigger docsets[i]]
                0 <= i < docsets.len() && query::least_size_hint(docsets)
                    == docsets[i].size_hint()
        },
        docsets.len() > 0 ==> query::first_cost(docsets) == docsets[0].cost(),
    decreases docsets.len(),
{
    if docsets.len() > 0 {
        let rest = docsets.drop_last();
        let last = docsets.len() - 1;
        lemma_least(rest);
        assert(docsets[last] == docsets.last());
        assert forall|i: int|
            #![trigger docsets[i]]
            0 <= i < docsets.len() implies query::least_size_hint(docsets)
            <= docsets[i].size_hint() by {
            if i < last {
                assert(rest[i] == docsets[i]);
            }
        }
        if rest.len() > 0 {
            let i = choose|i: int|
                #![trigger rest[i]]
                0 <= i < rest.len() && query::least_size_hint(rest) == rest[i].size_hint();
            assert(docsets[i] == rest[i]);
        }
    }
}

/// The size of a union is the sum of the sizes of its parts, or the number of documents where
/// that is less. That of a disjunction is the sum too, and what they cost is the sum of what
/// the parts do, as far as these fit.
pub proof fn lemma_sums(
    tree: ScorerTree,
    docsets: Seq<ScorerTree>,
    sizes: Seq<int>,
    costs: Seq<int>,
)
    requires
        tree is Union ==> docsets == tree->Union_docsets,
        tree is Disjunction ==> docsets == tree->Disjunction_docsets,
        tree is Union || tree is Disjunction,
        sizes == docsets.map_values(|docset: ScorerTree| docset.size_hint() as int),
        costs == docsets.map_values(|docset: ScorerTree| docset.cost() as int),
    ensures
        ({
            let size = sizes.fold_left(0int, |sum: int, next: int| sum + next);
            let cost = costs.fold_left(0int, |sum: int, next: int| sum + next);
            let most = if tree is Union {
                tree->Union_num_docs
            } else {
                u32::MAX
            };
            &&& size <= most ==> tree.size_hint() == size
            &&& size > most ==> tree.size_hint() == most
            &&& cost <= u64::MAX ==> tree.cost() == cost
            &&& cost > u64::MAX ==> tree.cost() == u64::MAX
        }),
{
    reveal_with_fuel(ScorerTree::size_hint, 2);
    reveal_with_fuel(ScorerTree::cost, 2);
    lemma_totals(docsets, sizes, costs);
}

proof fn lemma_totals(docsets: Seq<ScorerTree>, sizes: Seq<int>, costs: Seq<int>)
    requires
        sizes == docsets.map_values(|docset: ScorerTree| docset.size_hint() as int),
        costs == docsets.map_values(|docset: ScorerTree| docset.cost() as int),
    ensures
        query::total_size_hint(docsets) == sizes.fold_left(0int, |sum: int, next: int| sum + next),
        query::total_cost(docsets) == costs.fold_left(0int, |sum: int, next: int| sum + next),
    decreases docsets.len(),
{
    if docsets.len() > 0 {
        let rest = docsets.drop_last();
        let fewer_sizes = rest.map_values(|docset: ScorerTree| docset.size_hint() as int);
        let fewer_costs = rest.map_values(|docset: ScorerTree| docset.cost() as int);
        lemma_totals(rest, fewer_sizes, fewer_costs);
        assert(sizes.drop_last() =~= fewer_sizes);
        assert(costs.drop_last() =~= fewer_costs);
        reveal_with_fuel(Seq::<_>::fold_left, 2);
    }
}

} // verus!
