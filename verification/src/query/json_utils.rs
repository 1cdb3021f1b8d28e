//! What clauses know of the JSON arrays that their matches lie in.
use vstd::prelude::*;

use crate::json_metadata::JsonArrayPath;
use crate::json_path_writer::JsonArrayPathEntry;
use crate::query;
use crate::query::json_query::PassthroughJsonScorer;
use crate::query::leaf_scorers::{PhraseScorer, TermScorer};
use crate::query::postings;
use crate::query::Scorer;

verus! {

/// A scorer that can tell at which JSON array paths its current document matches.
///
/// JSON queries ask this to make sure that several matches lie in the same array element.
pub trait JsonPathScorer: Sized {
    /// True when the scorer can be asked.
    spec fn can_tell(self) -> bool;

    /// The paths in the current document, where the scorer knows them.
    spec fn current_paths(self) -> Option<Seq<Seq<JsonArrayPathEntry>>>;

    /// The same paths by their path ids.
    spec fn current_path_indexes(self) -> Option<Seq<u32>>;

    /// The paths in the current document, where the scorer knows them.
    fn json_array_paths_dyn(&mut self) -> (paths: Option<&[JsonArrayPath]>)
        requires
            old(self).can_tell(),
        ensures
            *final(self) == *old(self),
            match paths {
                Some(paths) => old(self).current_paths() == Some(postings::path_views(paths@)),
                None => old(self).current_paths() is None,
            },
    ;

    /// The path ids in the current document, where the scorer knows them.
    fn json_array_path_indexes_dyn(&mut self) -> (indexes: Option<&[u32]>)
        requires
            old(self).can_tell(),
        ensures
            *final(self) == *old(self),
            match indexes {
                Some(indexes) => old(self).current_path_indexes() == Some(indexes@),
                None => old(self).current_path_indexes() is None,
            },
    ;
}

impl JsonPathScorer for TermScorer {
    open spec fn can_tell(self) -> bool {
        self.wf()
    }

    open spec fn current_paths(self) -> Option<Seq<Seq<JsonArrayPathEntry>>> {
        Scorer::Term(self).tree().json_array_paths(Scorer::Term(self).current())
    }

    open spec fn current_path_indexes(self) -> Option<Seq<u32>> {
        Scorer::Term(self).tree().json_array_path_indexes(Scorer::Term(self).current())
    }

    fn json_array_paths_dyn(&mut self) -> (paths: Option<&[JsonArrayPath]>) {
        proof {
            Scorer::Term(*self).lemma_current_of_part();
        }
        self.postings.json_array_paths()
    }

    fn json_array_path_indexes_dyn(&mut self) -> (indexes: Option<&[u32]>) {
        proof {
            Scorer::Term(*self).lemma_current_of_part();
        }
        self.postings.json_array_path_indexes()
    }
}

impl JsonPathScorer for PhraseScorer {
    open spec fn can_tell(self) -> bool {
        self.wf()
    }

    open spec fn current_paths(self) -> Option<Seq<Seq<JsonArrayPathEntry>>> {
        Scorer::Phrase(self).tree().json_array_paths(Scorer::Phrase(self).current())
    }

    open spec fn current_path_indexes(self) -> Option<Seq<u32>> {
        Scorer::Phrase(self).tree().json_array_path_indexes(Scorer::Phrase(self).current())
    }

    fn json_array_paths_dyn(&mut self) -> (paths: Option<&[JsonArrayPath]>) {
        proof {
            Scorer::Phrase(*self).lemma_current_of_part();
        }
        self.postings.json_array_paths()
    }

    fn json_array_path_indexes_dyn(&mut self) -> (indexes: Option<&[u32]>) {
        proof {
            Scorer::Phrase(*self).lemma_current_of_part();
        }
        self.postings.json_array_path_indexes()
    }
}

impl JsonPathScorer for PassthroughJsonScorer {
    open spec fn can_tell(self) -> bool {
        true
    }

    open spec fn current_paths(self) -> Option<Seq<Seq<JsonArrayPathEntry>>> {
        None
    }

    open spec fn current_path_indexes(self) -> Option<Seq<u32>> {
        None
    }

    fn json_array_paths_dyn(&mut self) -> (paths: Option<&[JsonArrayPath]>) {
        None
    }

    fn json_array_path_indexes_dyn(&mut self) -> (indexes: Option<&[u32]>) {
        None
    }
}

impl JsonPathScorer for Scorer {
    open spec fn can_tell(self) -> bool {
        self.wf()
    }

    open spec fn current_paths(self) -> Option<Seq<Seq<JsonArrayPathEntry>>> {
        self.tree().json_array_paths(self.current())
    }

    open spec fn current_path_indexes(self) -> Option<Seq<u32>> {
        self.tree().json_array_path_indexes(self.current())
    }

    fn json_array_paths_dyn(&mut self) -> (paths: Option<&[JsonArrayPath]>) {
        match self {
            Scorer::Term(scorer) => scorer.json_array_paths_dyn(),
            Scorer::Phrase(scorer) => scorer.json_array_paths_dyn(),
            Scorer::Passthrough(scorer) => scorer.json_array_paths_dyn(),
            _ => None,
        }
    }

    fn json_array_path_indexes_dyn(&mut self) -> (indexes: Option<&[u32]>) {
        match self {
            Scorer::Term(scorer) => scorer.json_array_path_indexes_dyn(),
            Scorer::Phrase(scorer) => scorer.json_array_path_indexes_dyn(),
            Scorer::Passthrough(scorer) => scorer.json_array_path_indexes_dyn(),
            _ => None,
        }
    }
}

/// Tells what is one of `items`.
pub open spec fn among<T>(items: Seq<T>) -> spec_fn(T) -> bool {
    |item: T| items.contains(item)
}

/// The items, each where it occurs first.
pub open spec fn distinct<T>(items: Seq<T>) -> Seq<T>
    decreases items.len(),
{
    if items.len() == 0 {
        items
    } else {
        let before = distinct(items.drop_last());
        if before.contains(items.last()) {
            before
        } else {
            before.push(items.last())
        }
    }
}

/// `distinct` keeps every item, and none twice.
pub proof fn lemma_distinct<T>(items: Seq<T>)
    ensures
        distinct(items).no_duplicates(),
        forall|item: T| #[trigger] distinct(items).contains(item) <==> items.contains(item),
    decreases items.len(),
{
    if items.len() > 0 {
        let before = distinct(items.drop_last());
        let last = items.last();
        lemma_distinct(items.drop_last());
        assert forall|item: T| #[trigger] distinct(items).contains(item) <==> items.contains(
            item,
        ) by {
            if items.contains(item) {
                let i = choose|i: int| 0 <= i < items.len() && items[i] == item;
                if i < items.len() - 1 {
                    assert(items.drop_last()[i] == item);
                    assert(before.contains(item));
                    let j = choose|j: int| 0 <= j < before.len() && before[j] == item;
                    assert(distinct(items)[j] == item);
                } else if !before.contains(last) {
                    assert(distinct(items)[before.len() as int] == item);
                }
            }
            if distinct(items).contains(item) && !items.drop_last().contains(item) {
                assert(!before.contains(item));
                assert(items[items.len() - 1] == item);
            }
            if items.drop_last().contains(item) {
                let i = choose|i: int|
                    0 <= i < items.drop_last().len() && items.drop_last()[i] == item;
                assert(items[i] == item);
            }
        }
    }
}

/// What a filter keeps.
pub(crate) proof fn lemma_filter<T>(items: Seq<T>, kept: spec_fn(T) -> bool)
    ensures
        forall|item: T| #[trigger]
            items.filter(kept).contains(item) <==> items.contains(item) && kept(item),
{
    assert forall|item: T| #[trigger]
        items.filter(kept).contains(item) <==> items.contains(item) && kept(item) by {
        if items.filter(kept).contains(item) {
            items.lemma_filter_contains_rev(kept, item);
            let i = choose|i: int| 0 <= i < items.filter(kept).len() && items.filter(kept)[i]
                == item;
            items.lemma_filter_pred(kept, i);
        }
        if items.contains(item) && kept(item) {
            let i = choose|i: int| 0 <= i < items.len() && items[i] == item;
            items.lemma_filter_contains(kept, i);
        }
    }
}

/// One clause more.
pub(crate) proof fn lemma_common_path_step<T>(clauses: Seq<Option<Seq<T>>>, ord: int)
    requires
        0 <= ord < clauses.len(),
    ensures
        forall|path: T| #[trigger]
            query::is_common_path(clauses.take(ord + 1), path) <==> query::is_common_path(
                clauses.take(ord),
                path,
            ) && (query::restricts(clauses[ord]) ==> clauses[ord]->0.contains(path)),
{
    assert forall|path: T| #[trigger]
        query::is_common_path(clauses.take(ord + 1), path) <==> query::is_common_path(
            clauses.take(ord),
            path,
        ) && (query::restricts(clauses[ord]) ==> clauses[ord]->0.contains(path)) by {
        let fewer = clauses.take(ord);
        let more = clauses.take(ord + 1);
        assert(more[ord] == clauses[ord]);
        assert(forall|i: int| 0 <= i < ord ==> #[trigger] fewer[i] == more[i]);
        assert(forall|i: int| 0 <= i < ord ==> fewer[i] == #[trigger] more[i]);
    }
}

/// Clauses that restrict the paths, and of which the first have no path in common, do not
/// agree.
pub(crate) proof fn lemma_no_common_path<T>(clauses: Seq<Option<Seq<T>>>, ord: int)
    requires
        0 <= ord <= clauses.len(),
        exists|i: int| 0 <= i < ord && query::restricts(#[trigger] clauses[i]),
        forall|path: T| !#[trigger] query::is_common_path(clauses.take(ord), path),
    ensures
        !query::paths_agree(clauses),
{
    assert forall|path: T| !#[trigger] query::is_common_path(clauses, path) by {
        if query::is_common_path(clauses, path) {
            let fewer = clauses.take(ord);
            assert forall|i: int|
                0 <= i < fewer.len() && #[trigger] query::restricts(fewer[i]) implies
                fewer[i]->0.contains(path) by {
                assert(fewer[i] == clauses[i]);
                assert(query::restricts(clauses[i]));
            }
            assert(query::is_common_path(fewer, path));
        }
    }
}

/// True when every clause has `path`.
pub open spec fn in_all<T>(clauses: Seq<Option<Seq<T>>>, path: T) -> bool {
    forall|i: int| 0 <= i < clauses.len() ==> (#[trigger] clauses[i])->0.contains(path)
}

/// Where every clause knows of paths, they agree where one path is common to all.
pub proof fn lemma_all_restrict<T>(clauses: Seq<Option<Seq<T>>>)
    requires
        clauses.len() > 0,
        forall|i: int| 0 <= i < clauses.len() ==> query::restricts(#[trigger] clauses[i]),
    ensures
        query::paths_agree(clauses) <==> exists|path: T| in_all(clauses, path),
{
    assert(query::restricts(clauses[0]));
    if query::paths_agree(clauses) {
        let path = choose|path: T| query::is_common_path(clauses, path);
        assert forall|i: int| 0 <= i < clauses.len() implies (
        #[trigger] clauses[i])->0.contains(path) by {
            assert(query::restricts(clauses[i]));
        }
        assert(in_all(clauses, path));
    }
    if exists|path: T| in_all(clauses, path) {
        let path = choose|path: T| in_all(clauses, path);
        assert(query::is_common_path(clauses, path));
    }
}

/// In which order the clauses stand makes no difference, nor how often one does.
pub proof fn lemma_order_of_clauses<T>(one: Seq<Option<Seq<T>>>, other: Seq<Option<Seq<T>>>)
    requires
        forall|clause: Option<Seq<T>>| #[trigger] one.contains(clause) <==> other.contains(clause),
    ensures
        query::paths_agree(one) <==> query::paths_agree(other),
{
    lemma_agree_with_fewer(one, other);
    lemma_agree_with_fewer(other, one);
}

/// Where clauses agree, so do any of them.
proof fn lemma_agree_with_fewer<T>(all: Seq<Option<Seq<T>>>, some: Seq<Option<Seq<T>>>)
    requires
        forall|clause: Option<Seq<T>>| #[trigger] some.contains(clause) ==> all.contains(clause),
    ensures
        query::paths_agree(all) ==> query::paths_agree(some),
{
    assert forall|i: int| 0 <= i < some.len() implies exists|j: int|
        0 <= j < all.len() && all[j] == #[trigger] some[i] by {
        assert(some.contains(some[i]));
        assert(all.contains(some[i]));
    }
    if query::paths_agree(all) {
        if exists|path: T| query::is_common_path(all, path) {
            let path = choose|path: T| query::is_common_path(all, path);
            assert forall|i: int|
                0 <= i < some.len() && #[trigger] query::restricts(
                    some[i],
                ) implies some[i]->0.contains(path) by {
                let j = choose|j: int| 0 <= j < all.len() && all[j] == some[i];
                assert(query::restricts(all[j]));
            }
            assert(query::is_common_path(some, path));
        } else {
            assert forall|i: int| 0 <= i < some.len() implies !#[trigger] query::restricts(
                some[i],
            ) by {
                let j = choose|j: int| 0 <= j < all.len() && all[j] == some[i];
                assert(!query::restricts(all[j]));
            }
        }
    }
}

/// A clause that knows of no path makes no difference, wherever it stands.
pub proof fn lemma_unrestricting<T>(clauses: Seq<Option<Seq<T>>>, at: int)
    requires
        0 <= at < clauses.len(),
        !query::restricts(clauses[at]),
    ensures
        query::paths_agree(clauses) <==> query::paths_agree(clauses.remove(at)),
{
    let rest = clauses.remove(at);
    assert forall|path: T| #[trigger]
        query::is_common_path(clauses, path) <==> query::is_common_path(rest, path) by {
        if query::is_common_path(clauses, path) {
            assert forall|i: int| 0 <= i < rest.len() && #[trigger] query::restricts(rest[i]) implies
                rest[i]->0.contains(path) by {
                let j = if i < at {
                    i
                } else {
                    i + 1
                };
                assert(rest[i] == clauses[j]);
                assert(query::restricts(clauses[j]));
            }
        }
        if query::is_common_path(rest, path) {
            assert forall|i: int|
                0 <= i < clauses.len() && #[trigger] query::restricts(clauses[i]) implies
                clauses[i]->0.contains(path) by {
                let j = if i < at {
                    i
                } else {
                    i - 1
                };
                assert(clauses[i] == rest[j]);
                assert(query::restricts(rest[j]));
            }
        }
    }
    if exists|path: T| query::is_common_path(rest, path) {
        let path = choose|path: T| query::is_common_path(rest, path);
        assert(query::is_common_path(clauses, path));
    }
    if forall|i: int| 0 <= i < clauses.len() ==> !#[trigger] query::restricts(clauses[i]) {
        assert forall|i: int| 0 <= i < rest.len() implies !#[trigger] query::restricts(rest[i]) by {
            let j = if i < at {
                i
            } else {
                i + 1
            };
            assert(rest[i] == clauses[j]);
            assert(!query::restricts(clauses[j]));
        }
    }
    if forall|i: int| 0 <= i < rest.len() ==> !#[trigger] query::restricts(rest[i]) {
        assert forall|i: int| 0 <= i < clauses.len() implies !#[trigger] query::restricts(
            clauses[i],
        ) by {
            if i != at {
                let j = if i < at {
                    i
                } else {
                    i - 1
                };
                assert(clauses[i] == rest[j]);
                assert(!query::restricts(rest[j]));
            }
        }
    }
}

} // verus!
