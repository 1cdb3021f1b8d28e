//! Queries: what is asked for, before any segment is looked at.
use std::sync::Arc;

use vstd::prelude::*;

use crate::query::json_query::JsonQuery;
use crate::query::weight::{EnableScoring, LeafWeight, SearchError, Weight};

verus! {

/// A term that a query looks up.
pub struct QueryTerm {
    /// The bytes of the term.
    pub term: Arc<Vec<u8>>,
    /// True when the positions of the term are needed too.
    pub needs_positions: bool,
}

impl QueryTerm {
    /// The bytes of the term, and whether its positions are needed.
    pub open spec fn view(&self) -> (Seq<u8>, bool) {
        (self.term@, self.needs_positions)
    }
}

impl Clone for QueryTerm {
    fn clone(&self) -> (copy: Self)
        ensures
            copy == *self,
    {
        QueryTerm { term: self.term.clone(), needs_positions: self.needs_positions }
    }
}

/// The terms, in order.
pub open spec fn term_views(terms: Seq<QueryTerm>) -> Seq<(Seq<u8>, bool)> {
    terms.map_values(|term: QueryTerm| term@)
}

/// A query that is looked up as it is: a term, a phrase, or something else.
pub struct LeafQuery {
    /// Names the clause in a segment.
    pub clause: usize,
    /// The terms that are looked up.
    pub terms: Vec<QueryTerm>,
    /// Why the query has no weight, where it has none.
    pub failure: Option<SearchError>,
}

/// What is asked for.
pub enum Query {
    /// A query that is looked up as it is.
    Leaf(LeafQuery),
    /// A conjunction of queries on a JSON field.
    Json(JsonQuery),
}

impl Query {
    /// Why the query has no weight, where it has none.
    pub open spec fn failure(self) -> Option<SearchError>
        decreases self,
    {
        match self {
            Query::Leaf(query) => query.failure,
            Query::Json(query) => first_failure(query.subqueries@),
        }
    }

    /// True when `weight` is the weight of the query.
    pub open spec fn weighs(self, enable_scoring: EnableScoring, weight: Weight) -> bool
        decreases self,
    {
        match self {
            Query::Leaf(query) => weight == Weight::Leaf(
                LeafWeight { clause: query.clause, enable_scoring },
            ),
            Query::Json(query) => weight is Json && all_weigh(
                query.subqueries@,
                enable_scoring,
                weight->Json_0.weights@,
            ),
        }
    }

    /// The terms that the query looks up.
    pub open spec fn terms(self) -> Seq<(Seq<u8>, bool)>
        decreases self,
    {
        match self {
            Query::Leaf(query) => term_views(query.terms@),
            Query::Json(query) => all_terms(query.subqueries@),
        }
    }

    /// True when `other` asks for the same.
    pub open spec fn same(self, other: Query) -> bool
        decreases self,
    {
        match self {
            Query::Leaf(query) => {
                &&& other is Leaf
                &&& other->Leaf_0.clause == query.clause
                &&& other->Leaf_0.failure == query.failure
                &&& other->Leaf_0.terms@ == query.terms@
            },
            Query::Json(query) => other is Json && all_same(
                query.subqueries@,
                other->Json_0.subqueries@,
            ),
        }
    }
}

/// Why the first of several queries that has no weight has none.
pub open spec fn first_failure(queries: Seq<Query>) -> Option<SearchError>
    decreases queries,
{
    if queries.len() == 0 {
        None
    } else {
        match first_failure(queries.drop_last()) {
            Some(error) => Some(error),
            None => queries.last().failure(),
        }
    }
}

/// True when `weights` are the weights of several queries.
pub open spec fn all_weigh(
    queries: Seq<Query>,
    enable_scoring: EnableScoring,
    weights: Seq<Weight>,
) -> bool
    decreases queries,
{
    if queries.len() == 0 {
        weights.len() == 0
    } else {
        &&& weights.len() == queries.len()
        &&& all_weigh(queries.drop_last(), enable_scoring, weights.drop_last())
        &&& queries.last().weighs(enable_scoring, weights.last())
    }
}

/// The terms that several queries look up, one query after the other.
pub open spec fn all_terms(queries: Seq<Query>) -> Seq<(Seq<u8>, bool)>
    decreases queries,
{
    if queries.len() == 0 {
        Seq::empty()
    } else {
        all_terms(queries.drop_last()) + queries.last().terms()
    }
}

/// True when several queries ask for the same, one by one.
pub open spec fn all_same(queries: Seq<Query>, others: Seq<Query>) -> bool
    decreases queries,
{
    if queries.len() == 0 {
        others.len() == 0
    } else {
        &&& others.len() == queries.len()
        &&& all_same(queries.drop_last(), others.drop_last())
        &&& queries.last().same(others.last())
    }
}

impl Query {
    /// The weight of the query.
    pub fn weight(&self, enable_scoring: EnableScoring) -> (weight: Result<Weight, SearchError>)
        ensures
            match weight {
                Ok(weight) => self.failure() is None && self.weighs(enable_scoring, weight),
                Err(error) => self.failure() == Some(error),
            },
        decreases self, 1nat,
    {
        match self {
            Query::Leaf(query) => match query.failure {
                Some(error) => Err(error),
                None => Ok(Weight::Leaf(LeafWeight { clause: query.clause, enable_scoring })),
            },
            Query::Json(query) => query.weight(enable_scoring),
        }
    }

    /// Puts the terms that the query looks up behind `terms`.
    pub fn push_query_terms(&self, terms: &mut Vec<QueryTerm>)
        ensures
            term_views(final(terms)@) == term_views(old(terms)@) + self.terms(),
        decreases self, 1nat,
    {
        match self {
            Query::Leaf(query) => {
                let mut at: usize = 0;
                assert(term_views(query.terms@.take(0)) =~= Seq::<(Seq<u8>, bool)>::empty());
                while at < query.terms.len()
                    invariant
                        at <= query.terms@.len(),
                        term_views(terms@) == term_views(old(terms)@) + term_views(
                            query.terms@.take(at as int),
                        ),
                    decreases query.terms@.len() - at,
                {
                    let ghost before = terms@;
                    terms.push(query.terms[at].clone());
                    proof {
                        let term = query.terms@[at as int];
                        assert(term_views(terms@) =~= term_views(before).push(term@));
                        assert(term_views(query.terms@.take(at + 1)) =~= term_views(
                            query.terms@.take(at as int),
                        ).push(term@));
                    }
                    at = at + 1;
                }
                assert(query.terms@.take(at as int) =~= query.terms@);
            },
            Query::Json(query) => query.push_query_terms(terms),
        }
    }
}

impl LeafQuery {
    /// The same query once more.
    fn copied(&self) -> (copy: LeafQuery)
        ensures
            Query::Leaf(*self).same(Query::Leaf(copy)),
    {
        let mut terms: Vec<QueryTerm> = Vec::new();
        let mut at: usize = 0;
        while at < self.terms.len()
            invariant
                at <= self.terms@.len(),
                terms@ == self.terms@.take(at as int),
            decreases self.terms@.len() - at,
        {
            terms.push(self.terms[at].clone());
            assert(terms@ =~= self.terms@.take(at + 1));
            at = at + 1;
        }
        assert(self.terms@.take(at as int) =~= self.terms@);
        LeafQuery { clause: self.clause, terms, failure: self.failure }
    }
}

impl Clone for Query {
    fn clone(&self) -> (copy: Self)
        ensures
            self.same(copy),
        decreases self, 1nat,
    {
        match self {
            Query::Leaf(query) => Query::Leaf(query.copied()),
            Query::Json(query) => Query::Json(query.clone()),
        }
    }
}

/// The first failure is that of the first query that fails.
pub(crate) proof fn lemma_first_failure(queries: Seq<Query>, at: int, error: SearchError)
    requires
        0 <= at < queries.len(),
        first_failure(queries.take(at)) is None,
        queries[at].failure() == Some(error),
    ensures
        first_failure(queries) == Some(error),
    decreases queries.len() - at,
{
    if at == queries.len() - 1 {
        assert(queries.take(at) =~= queries.drop_last());
    } else {
        let rest = queries.drop_last();
        assert(rest.take(at) =~= queries.take(at));
        lemma_first_failure(rest, at, error);
    }
}

/// The weight of a query looked up as it is names its clause. The weight of a JSON query has
/// one weight for each subquery, in order, and no other, and each is that of its subquery.
pub proof fn lemma_weight_of_each(query: Query, enable_scoring: EnableScoring, weight: Weight)
    ensures
        query.weighs(enable_scoring, weight) <==> match query {
            Query::Leaf(leaf) => {
                &&& weight is Leaf
                &&& weight->Leaf_0.clause == leaf.clause
                &&& weight->Leaf_0.enable_scoring == enable_scoring
            },
            Query::Json(json) => {
                &&& weight is Json
                &&& weight->Json_0.weights@.len() == json.subqueries@.len()
                &&& forall|i: int|
                    #![trigger json.subqueries@[i]]
                    #![trigger weight->Json_0.weights@[i]]
                    0 <= i < json.subqueries@.len() ==> json.subqueries@[i].weighs(
                        enable_scoring,
                        weight->Json_0.weights@[i],
                    )
            },
        },
{
    match query {
        Query::Leaf(_) => {},
        Query::Json(json) => {
            if weight is Json {
                lemma_all_weigh(json.subqueries@, enable_scoring, weight->Json_0.weights@);
            }
        },
    }
}

proof fn lemma_all_weigh(queries: Seq<Query>, enable_scoring: EnableScoring, weights: Seq<Weight>)
    ensures
        all_weigh(queries, enable_scoring, weights) <==> {
            &&& weights.len() == queries.len()
            &&& forall|i: int|
                #![trigger queries[i]]
                #![trigger weights[i]]
                0 <= i < queries.len() ==> queries[i].weighs(enable_scoring, weights[i])
        },
    decreases queries.len(),
{
    if queries.len() > 0 && weights.len() == queries.len() {
        let fewer = queries.drop_last();
        let fewer_weights = weights.drop_last();
        lemma_all_weigh(fewer, enable_scoring, fewer_weights);
        if all_weigh(queries, enable_scoring, weights) {
            assert forall|i: int|
                #![trigger queries[i]]
                #![trigger weights[i]]
                0 <= i < queries.len() implies queries[i].weighs(enable_scoring, weights[i]) by {
                if i < queries.len() - 1 {
                    assert(fewer[i].weighs(enable_scoring, fewer_weights[i]));
                }
            }
        }
        if forall|i: int|
            #![trigger queries[i]]
            #![trigger weights[i]]
            0 <= i < queries.len() ==> queries[i].weighs(enable_scoring, weights[i]) {
            assert forall|i: int|
                #![trigger fewer[i]]
                #![trigger fewer_weights[i]]
                0 <= i < fewer.len() implies fewer[i].weighs(
                enable_scoring,
                fewer_weights[i],
            ) by {
                assert(queries[i].weighs(enable_scoring, weights[i]));
            }
            assert(queries[queries.len() - 1].weighs(enable_scoring, weights[queries.len() - 1]));
        }
    }
}

/// A query fails with what the first of its subqueries fails with, and only where one does.
pub proof fn lemma_failure_of_first(query: Query, error: SearchError)
    ensures
        query.failure() == Some(error) <==> match query {
            Query::Leaf(leaf) => leaf.failure == Some(error),
            Query::Json(json) => exists|i: int|
                #![trigger json.subqueries@[i]]
                0 <= i < json.subqueries@.len() && json.subqueries@[i].failure() == Some(error)
                    && forall|j: int|
                    #![trigger json.subqueries@[j]]
                    0 <= j < i ==> json.subqueries@[j].failure() is None,
        },
        query.failure() is None <==> match query {
            Query::Leaf(leaf) => leaf.failure is None,
            Query::Json(json) => forall|i: int|
                #![trigger json.subqueries@[i]]
                0 <= i < json.subqueries@.len() ==> json.subqueries@[i].failure() is None,
        },
{
    match query {
        Query::Leaf(_) => {},
        Query::Json(json) => {
            lemma_first_of_failures(json.subqueries@, error);
        },
    }
}

proof fn lemma_first_of_failures(queries: Seq<Query>, error: SearchError)
    ensures
        first_failure(queries) == Some(error) <==> exists|i: int|
            #![trigger queries[i]]
            0 <= i < queries.len() && queries[i].failure() == Some(error) && forall|j: int|
                #![trigger queries[j]]
                0 <= j < i ==> queries[j].failure() is None,
        first_failure(queries) is None <==> forall|i: int|
            #![trigger queries[i]]
            0 <= i < queries.len() ==> queries[i].failure() is None,
    decreases queries.len(),
{
    if queries.len() > 0 {
        let fewer = queries.drop_last();
        let last = queries.len() - 1;
        lemma_first_of_failures(fewer, error);
        if first_failure(fewer) is None {
            assert forall|i: int|
                #![trigger queries[i]]
                0 <= i < last implies queries[i].failure() is None by {
                assert(fewer[i].failure() is None);
            }
            assert(queries[last] == queries.last());
        } else {
            let found = choose|i: int|
                #![trigger fewer[i]]
                0 <= i < fewer.len() && fewer[i].failure() is Some;
            assert(queries[found].failure() is Some);
            if first_failure(fewer) == Some(error) {
                let i = choose|i: int|
                    #![trigger fewer[i]]
                    0 <= i < fewer.len() && fewer[i].failure() == Some(error) && forall|j: int|
                        #![trigger fewer[j]]
                        0 <= j < i ==> fewer[j].failure() is None;
                assert forall|j: int|
                    #![trigger queries[j]]
                    0 <= j < i implies queries[j].failure() is None by {
                    assert(fewer[j].failure() is None);
                }
                assert(queries[i].failure() == Some(error));
            }
            if exists|i: int|
                #![trigger queries[i]]
                0 <= i < queries.len() && queries[i].failure() == Some(error) && forall|j: int|
                    #![trigger queries[j]]
                    0 <= j < i ==> queries[j].failure() is None {
                let i = choose|i: int|
                    #![trigger queries[i]]
                    0 <= i < queries.len() && queries[i].failure() == Some(error) && forall|j: int|
                        #![trigger queries[j]]
                        0 <= j < i ==> queries[j].failure() is None;
                assert(found >= i) by {
                    if found < i {
                        assert(queries[found].failure() is None);
                    }
                }
                assert(fewer[i].failure() == Some(error));
                assert forall|j: int|
                    #![trigger fewer[j]]
                    0 <= j < i implies fewer[j].failure() is None by {
                    assert(queries[j].failure() is None);
                }
            }
        }
    }
}

/// The terms of a query are its own, each with its bytes and whether positions are needed, or
/// those of its subqueries, all of them, one subquery after the other.
pub proof fn lemma_terms_of_each(query: Query)
    ensures
        match query {
            Query::Leaf(leaf) => {
                &&& query.terms().len() == leaf.terms@.len()
                &&& forall|i: int|
                    #![trigger query.terms()[i]]
                    #![trigger leaf.terms@[i]]
                    0 <= i < leaf.terms@.len() ==> query.terms()[i] == (
                        leaf.terms@[i].term@,
                        leaf.terms@[i].needs_positions,
                    )
            },
            Query::Json(json) => query.terms() == json.subqueries@.flat_map(
                |subquery: Query| subquery.terms(),
            ),
        },
{
    match query {
        Query::Leaf(_) => {},
        Query::Json(json) => {
            lemma_all_terms(json.subqueries@);
        },
    }
}

proof fn lemma_all_terms(queries: Seq<Query>)
    ensures
        all_terms(queries) == queries.flat_map(|query: Query| query.terms()),
    decreases queries.len(),
{
    let terms = |query: Query| query.terms();
    if queries.len() > 0 {
        let fewer = queries.drop_last();
        lemma_all_terms(fewer);
        fewer.lemma_flat_map_push(terms, queries.last());
        assert(fewer.push(queries.last()) =~= queries);
    } else {
        assert(queries.flat_map(terms) =~= Seq::<(Seq<u8>, bool)>::empty());
    }
}

/// A query asks for the same as another where both are looked up as they are and name the same
/// clause, terms and failure, or where both have as many subqueries, and these ask for the same
/// one by one.
pub proof fn lemma_same_as(query: Query, other: Query)
    ensures
        query.same(other) <==> match (query, other) {
            (Query::Leaf(leaf), Query::Leaf(copy)) => {
                &&& copy.clause == leaf.clause
                &&& copy.failure == leaf.failure
                &&& copy.terms@ == leaf.terms@
            },
            (Query::Json(json), Query::Json(copy)) => {
                &&& copy.subqueries@.len() == json.subqueries@.len()
                &&& forall|i: int|
                    #![trigger json.subqueries@[i]]
                    #![trigger copy.subqueries@[i]]
                    0 <= i < json.subqueries@.len() ==> json.subqueries@[i].same(
                        copy.subqueries@[i],
                    )
            },
            _ => false,
        },
{
    match (query, other) {
        (Query::Json(json), Query::Json(copy)) => {
            lemma_all_same(json.subqueries@, copy.subqueries@);
        },
        _ => {},
    }
}

proof fn lemma_all_same(queries: Seq<Query>, others: Seq<Query>)
    ensures
        all_same(queries, others) <==> {
            &&& others.len() == queries.len()
            &&& forall|i: int|
                #![trigger queries[i]]
                #![trigger others[i]]
                0 <= i < queries.len() ==> queries[i].same(others[i])
        },
    decreases queries.len(),
{
    if queries.len() > 0 && others.len() == queries.len() {
        let fewer = queries.drop_last();
        let fewer_others = others.drop_last();
        lemma_all_same(fewer, fewer_others);
        if all_same(queries, others) {
            assert forall|i: int|
                #![trigger queries[i]]
                #![trigger others[i]]
                0 <= i < queries.len() implies queries[i].same(others[i]) by {
                if i < queries.len() - 1 {
                    assert(fewer[i].same(fewer_others[i]));
                }
            }
        }
        if forall|i: int|
            #![trigger queries[i]]
            #![trigger others[i]]
            0 <= i < queries.len() ==> queries[i].same(others[i]) {
            assert forall|i: int|
                #![trigger fewer[i]]
                #![trigger fewer_others[i]]
                0 <= i < fewer.len() implies fewer[i].same(fewer_others[i]) by {
                assert(queries[i].same(others[i]));
            }
            assert(queries[queries.len() - 1].same(others[queries.len() - 1]));
        }
    }
}

/// A query that asks for the same has the same terms, fails alike, and has the same weights.
pub proof fn lemma_same_search(
    query: Query,
    other: Query,
    enable_scoring: EnableScoring,
    weight: Weight,
)
    requires
        query.same(other),
    ensures
        other.terms() == query.terms(),
        other.failure() == query.failure(),
        other.weighs(enable_scoring, weight) <==> query.weighs(enable_scoring, weight),
    decreases query,
{
    match (query, other) {
        (Query::Json(json), Query::Json(copy)) => {
            if weight is Json {
                lemma_all_same_search(
                    json.subqueries@,
                    copy.subqueries@,
                    enable_scoring,
                    weight->Json_0.weights@,
                );
            } else {
                lemma_all_same_search(
                    json.subqueries@,
                    copy.subqueries@,
                    enable_scoring,
                    Seq::empty(),
                );
            }
        },
        _ => {},
    }
}

proof fn lemma_all_same_search(
    queries: Seq<Query>,
    others: Seq<Query>,
    enable_scoring: EnableScoring,
    weights: Seq<Weight>,
)
    requires
        all_same(queries, others),
    ensures
        all_terms(others) == all_terms(queries),
        first_failure(others) == first_failure(queries),
        all_weigh(others, enable_scoring, weights) <==> all_weigh(queries, enable_scoring, weights),
    decreases queries,
{
    if queries.len() > 0 {
        lemma_all_same_search(
            queries.drop_last(),
            others.drop_last(),
            enable_scoring,
            weights.drop_last(),
        );
        lemma_same_search(queries.last(), others.last(), enable_scoring, weights.last());
    }
}

} // verus!
