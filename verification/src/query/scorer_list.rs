//! Several scorers, moved together.
use vstd::prelude::*;

use crate::docset::{DocId, TERMINATED};
use crate::query;
use crate::query::Scorer;

verus! {

/// The first document that any of the scorers has.
pub(crate) fn first_doc(docsets: &Vec<Scorer>) -> (doc: DocId)
    requires
        query::all_wf(docsets@),
    ensures
        query::first_of_any(docsets@, doc),
    decreases query::trees(docsets@), 0nat,
{
    let mut doc: DocId = TERMINATED;
    let mut at: usize = 0;
    while at < docsets.len()
        invariant
            at <= docsets@.len(),
            query::all_wf(docsets@),
            query::first_of_any(docsets@.take(at as int), doc),
        decreases docsets@.len() - at,
    {
        proof {
            assert(query::trees(docsets@)[at as int] == docsets@[at as int].tree());
            assert(decreases_to!(query::trees(docsets@) => query::trees(docsets@)[at as int]));
        }
        let here: DocId = docsets[at].doc();
        proof {
            let taken = docsets@.take(at as int);
            let next = docsets@.take(at + 1);
            assert(forall|i: int| 0 <= i < at ==> next[i] == taken[i]);
            assert(next[at as int] == docsets@[at as int]);
            if here < doc {
                assert(next[at as int].has(here));
            } else if doc < TERMINATED {
                let i = choose|i: int| 0 <= i < taken.len() && (#[trigger] taken[i]).has(doc);
                assert(next[i].has(doc));
            }
        }
        if here < doc {
            doc = here;
        }
        at = at + 1;
    }
    assert(docsets@.take(at as int) == docsets@);
    doc
}

/// Moves each of the scorers to `target`.
pub(crate) fn seek_all(docsets: &mut Vec<Scorer>, target: DocId)
    requires
        query::all_wf(old(docsets)@),
    ensures
        query::all_moved_to(old(docsets)@, final(docsets)@, target as int),
    decreases query::trees(old(docsets)@), 0nat,
{
    let ghost before = docsets@;
    let mut at: usize = 0;
    while at < docsets.len()
        invariant
            at <= docsets@.len(),
            docsets@.len() == before.len(),
            before == old(docsets)@,
            query::all_wf(before),
            forall|i: int| at <= i < before.len() ==> docsets@[i] == before[i],
            forall|i: int|
                #![trigger docsets@[i]]
                0 <= i < at ==> query::moved_to(before[i], docsets@[i], target as int),
        decreases before.len() - at,
    {
        proof {
            assert(query::trees(before)[at as int] == docsets@[at as int].tree());
            assert(decreases_to!(query::trees(before) => query::trees(before)[at as int]));
        }
        let _ = docsets[at].seek(target);
        at = at + 1;
    }
}

/// Moves those of the scorers that stand on `doc`, the first document that any of them has.
pub(crate) fn advance_all_at(docsets: &mut Vec<Scorer>, doc: DocId)
    requires
        query::all_wf(old(docsets)@),
        query::first_of_any(old(docsets)@, doc),
    ensures
        query::all_moved_to(old(docsets)@, final(docsets)@, doc + 1),
    decreases query::trees(old(docsets)@), 0nat,
{
    let ghost before = docsets@;
    let mut at: usize = 0;
    while at < docsets.len()
        invariant
            at <= docsets@.len(),
            docsets@.len() == before.len(),
            before == old(docsets)@,
            query::all_wf(before),
            query::first_of_any(before, doc),
            forall|i: int| at <= i < before.len() ==> docsets@[i] == before[i],
            forall|i: int|
                #![trigger docsets@[i]]
                0 <= i < at ==> query::moved_to(before[i], docsets@[i], doc + 1),
        decreases before.len() - at,
    {
        proof {
            assert(query::trees(before)[at as int] == docsets@[at as int].tree());
            assert(decreases_to!(query::trees(before) => query::trees(before)[at as int]));
        }
        if docsets[at].doc() == doc {
            let _ = docsets[at].advance();
        }
        at = at + 1;
    }
}

/// The number of scorers that have `doc`, the first document that any of them has.
pub(crate) fn count_at(docsets: &Vec<Scorer>, doc: DocId) -> (count: usize)
    requires
        query::all_wf(docsets@),
        query::first_of_any(docsets@, doc),
        doc < TERMINATED,
    ensures
        count == query::num_having(docsets@, doc),
    decreases query::trees(docsets@), 0nat,
{
    let mut count: usize = 0;
    let mut at: usize = 0;
    while at < docsets.len()
        invariant
            count <= at <= docsets@.len(),
            query::all_wf(docsets@),
            query::first_of_any(docsets@, doc),
            doc < TERMINATED,
            count == query::num_having(docsets@.take(at as int), doc),
        decreases docsets@.len() - at,
    {
        proof {
            assert(query::trees(docsets@)[at as int] == docsets@[at as int].tree());
            assert(decreases_to!(query::trees(docsets@) => query::trees(docsets@)[at as int]));
            let next = docsets@.take(at + 1);
            assert(next.drop_last() == docsets@.take(at as int));
            assert(next.last() == docsets@[at as int]);
            assert(query::num_having(next, doc) == query::num_having(next.drop_last(), doc) + if
                next.last().has(doc) {
                1nat
            } else {
                0
            });
        }
        if docsets[at].doc() == doc {
            count = count + 1;
        }
        at = at + 1;
    }
    assert(docsets@.take(at as int) == docsets@);
    count
}

/// Moves the scorers forwards until all stand on the same document, without leaving behind
/// one that all of them have.
pub(crate) fn align(docsets: &mut Vec<Scorer>) -> (doc: DocId)
    requires
        old(docsets)@.len() > 0,
        query::all_wf(old(docsets)@),
    ensures
        final(docsets)@.len() == old(docsets)@.len(),
        query::all_wf(final(docsets)@),
        query::trees(final(docsets)@) == query::trees(old(docsets)@),
        query::all_stand_on(final(docsets)@, doc),
        forall|other: DocId| #[trigger]
            query::all_have(final(docsets)@, other) <==> query::all_have(old(docsets)@, other),
    decreases query::trees(old(docsets)@), 0nat,
{
    let ghost before = docsets@;
    proof {
        assert(query::trees(before)[0] == before[0].tree());
        assert(decreases_to!(query::trees(before) => query::trees(before)[0]));
    }
    let mut doc: DocId = docsets[0].doc();
    let mut at: usize = 1;
    assert forall|other: DocId| #[trigger] query::all_have(before, other) implies doc
        <= other by {
        assert(before[0].has(other));
    }
    while at < docsets.len()
        invariant
            at <= docsets@.len(),
            docsets@.len() == before.len() > 0,
            before == old(docsets)@,
            query::all_wf(docsets@),
            query::trees(docsets@) == query::trees(before),
            doc <= TERMINATED,
            forall|i: int| 0 <= i < at ==> (#[trigger] docsets@[i]).stands_on(doc),
            forall|i: int, other: DocId|
                0 <= i < before.len() && #[trigger] docsets@[i].has(other) ==> before[i].has(
                    other,
                ),
            forall|other: DocId| #[trigger]
                query::all_have(before, other) ==> query::all_have(docsets@, other) && doc
                    <= other,
        decreases TERMINATED - doc, before.len() - at,
    {
        let ghost held = docsets@;
        proof {
            assert(query::trees(before)[at as int] == docsets@[at as int].tree());
            assert(decreases_to!(query::trees(before) => query::trees(before)[at as int]));
        }
        let here: DocId = docsets[at].seek(doc);
        assert(query::trees(docsets@) =~= query::trees(held));
        assert(forall|i: int| 0 <= i < before.len() && i != at ==> docsets@[i] == held[i]);
        assert forall|other: DocId| #[trigger] query::all_have(before, other) implies
            query::all_have(docsets@, other) && here <= other by {
            assert(held[at as int].has(other));
            assert(docsets@[at as int].has(other));
        }
        if here == doc {
            at = at + 1;
        } else {
            doc = here;
            at = 0;
        }
    }
    proof {
        assert forall|other: DocId| #[trigger]
            query::all_have(docsets@, other) <==> query::all_have(before, other) by {
            if query::all_have(docsets@, other) {
                assert forall|i: int| 0 <= i < before.len() implies (#[trigger] before[i]).has(
                    other,
                ) by {
                    assert(docsets@[i].has(other));
                }
            }
        }
    }
    doc
}

/// The sum of the size hints, as far as it fits.
pub(crate) fn total_size_hint(docsets: &Vec<Scorer>) -> (size_hint: u32)
    ensures
        size_hint == query::at_most_u32(query::total_size_hint(query::trees(docsets@))),
    decreases query::trees(docsets@), 0nat,
{
    let ghost trees = query::trees(docsets@);
    let mut size_hint: u32 = 0;
    let mut at: usize = 0;
    while at < docsets.len()
        invariant
            at <= docsets@.len(),
            trees == query::trees(docsets@),
            size_hint == query::at_most_u32(query::total_size_hint(trees.take(at as int))),
        decreases docsets@.len() - at,
    {
        proof {
            assert(trees[at as int] == docsets@[at as int].tree());
            assert(decreases_to!(trees => trees[at as int]));
            let next = trees.take(at + 1);
            assert(next.drop_last() =~= trees.take(at as int));
            assert(query::total_size_hint(next) == query::total_size_hint(next.drop_last())
                + next.last().size_hint() as nat);
        }
        size_hint = size_hint.saturating_add(docsets[at].size_hint());
        at = at + 1;
    }
    assert(trees.take(at as int) =~= trees);
    size_hint
}

/// The least of the size hints.
pub(crate) fn least_size_hint(docsets: &Vec<Scorer>) -> (size_hint: u32)
    ensures
        size_hint == query::least_size_hint(query::trees(docsets@)),
    decreases query::trees(docsets@), 0nat,
{
    let ghost trees = query::trees(docsets@);
    let mut size_hint: u32 = u32::MAX;
    let mut at: usize = 0;
    while at < docsets.len()
        invariant
            at <= docsets@.len(),
            trees == query::trees(docsets@),
            size_hint == query::least_size_hint(trees.take(at as int)),
        decreases docsets@.len() - at,
    {
        proof {
            assert(trees[at as int] == docsets@[at as int].tree());
            assert(decreases_to!(trees => trees[at as int]));
            let next = trees.take(at + 1);
            assert(next.drop_last() =~= trees.take(at as int));
            assert(next.last().size_hint() == trees[at as int].size_hint());
        }
        let here: u32 = docsets[at].size_hint();
        if here <= size_hint {
            size_hint = here;
        }
        at = at + 1;
    }
    assert(trees.take(at as int) =~= trees);
    size_hint
}

/// The sum of the costs, as far as it fits.
pub(crate) fn total_cost(docsets: &Vec<Scorer>) -> (cost: u64)
    ensures
        cost == query::at_most_u64(query::total_cost(query::trees(docsets@))),
    decreases query::trees(docsets@), 0nat,
{
    let ghost trees = query::trees(docsets@);
    let mut cost: u64 = 0;
    let mut at: usize = 0;
    while at < docsets.len()
        invariant
            at <= docsets@.len(),
            trees == query::trees(docsets@),
            cost == query::at_most_u64(query::total_cost(trees.take(at as int))),
        decreases docsets@.len() - at,
    {
        proof {
            assert(trees[at as int] == docsets@[at as int].tree());
            assert(decreases_to!(trees => trees[at as int]));
            let next = trees.take(at + 1);
            assert(next.drop_last() =~= trees.take(at as int));
            assert(query::total_cost(next) == query::total_cost(next.drop_last())
                + next.last().cost() as nat);
        }
        cost = cost.saturating_add(docsets[at].cost());
        at = at + 1;
    }
    assert(trees.take(at as int) =~= trees);
    cost
}

/// The cost of the first scorer.
pub(crate) fn first_cost(docsets: &Vec<Scorer>) -> (cost: u64)
    ensures
        cost == query::first_cost(query::trees(docsets@)),
    decreases query::trees(docsets@), 0nat,
{
    if docsets.len() == 0 {
        return 0;
    }
    proof {
        let trees = query::trees(docsets@);
        assert(trees[0] == docsets@[0].tree());
        assert(decreases_to!(trees => trees[0]));
        assert(query::first_cost(trees) == trees[0].cost());
    }
    docsets[0].cost()
}

} // verus!
