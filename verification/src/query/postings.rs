//! The documents in which a term or a phrase occurs.
use std::sync::Arc;

use vstd::prelude::*;

use crate::docset::{DocId, TERMINATED};
use crate::json_metadata::JsonArrayPath;
use crate::json_path_writer::JsonArrayPathEntry;
use crate::query;

verus! {

/// Paths, each as the arrays on the way, from the outermost one inwards.
pub open spec fn path_views(paths: Seq<JsonArrayPath>) -> Seq<Seq<JsonArrayPathEntry>> {
    paths.map_values(|path: JsonArrayPath| path@)
}

/// The documents in which a term or a phrase occurs, and for each of them the JSON array
/// paths at which it does.
pub struct Postings {
    /// The documents, in increasing order.
    pub docs: Seq<DocId>,
    /// The paths in each document, where the positions have them.
    pub json_paths: Seq<Option<Seq<Seq<JsonArrayPathEntry>>>>,
    /// The same paths by their path ids.
    pub json_path_indexes: Seq<Option<Seq<u32>>>,
}

impl Postings {
    /// True when the documents are in order, and each has its paths.
    pub open spec fn ordered(self) -> bool {
        &&& self.json_paths.len() == self.docs.len()
        &&& self.json_path_indexes.len() == self.docs.len()
        &&& forall|i: int| 0 <= i < self.docs.len() ==> self.docs[i] < TERMINATED
        &&& forall|i: int, j: int| 0 <= i < j < self.docs.len() ==> self.docs[i] < self.docs[j]
    }

    /// The paths in the document `doc`.
    pub open spec fn paths_in(self, doc: DocId) -> Option<Seq<Seq<JsonArrayPathEntry>>> {
        if self.docs.contains(doc) {
            self.json_paths[self.docs.index_of(doc)]
        } else {
            None
        }
    }

    /// The path ids in the document `doc`.
    pub open spec fn path_indexes_in(self, doc: DocId) -> Option<Seq<u32>> {
        if self.docs.contains(doc) {
            self.json_path_indexes[self.docs.index_of(doc)]
        } else {
            None
        }
    }
}

/// Postings as they are held in memory.
pub struct PostingList {
    docs: Vec<DocId>,
    json_paths: Vec<Option<Vec<JsonArrayPath>>>,
    json_path_indexes: Vec<Option<Vec<u32>>>,
}

impl PostingList {
    pub closed spec fn view(&self) -> Postings {
        postings_of(self.docs@, self.json_paths@, self.json_path_indexes@)
    }

    #[verifier::type_invariant]
    spec fn ordered(self) -> bool {
        self@.ordered()
    }

    /// Takes postings whose documents are in increasing order, and which have an entry for
    /// each document. Gives nothing for others.
    pub fn new(
        docs: Vec<DocId>,
        json_paths: Vec<Option<Vec<JsonArrayPath>>>,
        json_path_indexes: Vec<Option<Vec<u32>>>,
    ) -> (list: Option<PostingList>)
        ensures
            list is Some == postings_of(docs@, json_paths@, json_path_indexes@).ordered(),
            list matches Some(list) ==> list@ == postings_of(
                docs@,
                json_paths@,
                json_path_indexes@,
            ),
    {
        let len: usize = docs.len();
        if json_paths.len() != len || json_path_indexes.len() != len {
            return None;
        }
        let mut at: usize = 0;
        while at < len
            invariant
                at <= len,
                len == docs@.len(),
                forall|i: int| 0 <= i < at ==> docs@[i] < TERMINATED,
                forall|i: int, j: int| 0 <= i < j < at ==> docs@[i] < docs@[j],
            decreases len - at,
        {
            if docs[at] >= TERMINATED || (at > 0 && docs[at - 1] >= docs[at]) {
                return None;
            }
            at = at + 1;
        }
        Some(PostingList { docs, json_paths, json_path_indexes })
    }
}

/// What the parts of a posting list stand for.
pub open spec fn postings_of(
    docs: Seq<DocId>,
    json_paths: Seq<Option<Vec<JsonArrayPath>>>,
    json_path_indexes: Seq<Option<Vec<u32>>>,
) -> Postings {
    Postings {
        docs,
        json_paths: json_paths.map_values(
            |paths: Option<Vec<JsonArrayPath>>|
                match paths {
                    Some(paths) => Some(path_views(paths@)),
                    None => None,
                },
        ),
        json_path_indexes: json_path_indexes.map_values(
            |indexes: Option<Vec<u32>>|
                match indexes {
                    Some(indexes) => Some(indexes@),
                    None => None,
                },
        ),
    }
}

/// A cursor that goes through postings.
pub struct SegmentPostings {
    list: Arc<PostingList>,
    cursor: usize,
}

impl SegmentPostings {
    /// The postings that the cursor goes through.
    pub closed spec fn postings(self) -> Postings {
        self.list@
    }

    /// True when the cursor lies within the postings or just behind them.
    pub closed spec fn wf(self) -> bool {
        self.postings().ordered() && self.cursor <= self.postings().docs.len()
    }

    /// True when the cursor stands on `doc` or before it.
    pub closed spec fn has(self, doc: DocId) -> bool {
        exists|i: int|
            self.cursor <= i < self.postings().docs.len() && #[trigger] self.postings().docs[i]
                == doc
    }

    /// The document that the cursor stands on.
    pub closed spec fn current(self) -> DocId {
        if self.cursor < self.postings().docs.len() {
            self.postings().docs[self.cursor as int]
        } else {
            TERMINATED
        }
    }

    /// A cursor on the first document.
    pub fn new(list: Arc<PostingList>) -> (postings: SegmentPostings)
        ensures
            postings.wf(),
            postings.postings() == list@,
            forall|doc: DocId| #[trigger] postings.has(doc) <==> list@.docs.contains(doc),
    {
        proof {
            use_type_invariant(&*list);
        }
        SegmentPostings { list, cursor: 0 }
    }

    /// The document that the cursor stands on: the first one that is left.
    pub fn doc(&self) -> (doc: DocId)
        requires
            self.wf(),
        ensures
            doc == self.current(),
            doc <= TERMINATED,
            doc < TERMINATED ==> self.has(doc),
            forall|other: DocId| #[trigger] self.has(other) ==> doc <= other < TERMINATED,
    {
        proof {
            self.lemma_cursor();
        }
        if self.cursor < self.list.docs.len() {
            self.list.docs[self.cursor]
        } else {
            TERMINATED
        }
    }

    /// Moves the cursor to the first document that is not before `target`, unless it is
    /// there or behind it already.
    pub fn seek(&mut self, target: DocId) -> (doc: DocId)
        requires
            old(self).wf(),
        ensures
            final(self).wf(),
            final(self).postings() == old(self).postings(),
            forall|other: DocId| #[trigger]
                final(self).has(other) <==> old(self).has(other) && other >= target,
            doc == final(self).current(),
            doc <= TERMINATED,
            doc < TERMINATED ==> final(self).has(doc),
            forall|other: DocId| #[trigger] final(self).has(other) ==> doc <= other < TERMINATED,
    {
        let ghost docs = self.postings().docs;
        while self.cursor < self.list.docs.len() && self.list.docs[self.cursor] < target
            invariant
                self.wf(),
                self.postings() == old(self).postings(),
                docs == self.postings().docs,
                old(self).cursor <= self.cursor,
                forall|i: int| old(self).cursor <= i < self.cursor ==> docs[i] < target,
            decreases docs.len() - self.cursor,
        {
            self.cursor = self.cursor + 1;
        }
        assert forall|other: DocId| #[trigger]
            self.has(other) <==> old(self).has(other) && other >= target by {
            if self.has(other) {
                let i = choose|i: int| self.cursor <= i < docs.len() && docs[i] == other;
                assert(docs[self.cursor as int] <= docs[i]);
                assert(old(self).postings().docs[i] == other);
            }
            if old(self).has(other) && other >= target {
                let i = choose|i: int| old(self).cursor <= i < docs.len() && docs[i] == other;
                assert(self.postings().docs[i] == other);
            }
        }
        self.doc()
    }

    /// Moves the cursor to the next document.
    pub fn advance(&mut self) -> (doc: DocId)
        requires
            old(self).wf(),
        ensures
            final(self).wf(),
            final(self).postings() == old(self).postings(),
            forall|other: DocId| #[trigger]
                final(self).has(other) <==> old(self).has(other) && other > old(self).current(),
            doc == final(self).current(),
            doc <= TERMINATED,
            doc < TERMINATED ==> final(self).has(doc),
            forall|other: DocId| #[trigger] final(self).has(other) ==> doc <= other < TERMINATED,
    {
        let ghost docs = self.postings().docs;
        if self.cursor < self.list.docs.len() {
            self.cursor = self.cursor + 1;
        }
        assert forall|other: DocId| #[trigger]
            self.has(other) <==> old(self).has(other) && other > old(self).current() by {
            if self.has(other) {
                let i = choose|i: int| self.cursor <= i < docs.len() && docs[i] == other;
                assert(docs[old(self).cursor as int] < docs[i]);
                assert(old(self).postings().docs[i] == other);
            }
            if old(self).has(other) && other > old(self).current() {
                let i = choose|i: int| old(self).cursor <= i < docs.len() && docs[i] == other;
                assert(self.postings().docs[i] == other);
            }
        }
        self.doc()
    }

    /// The number of documents, whichever the cursor stands on, as far as it fits.
    pub fn size_hint(&self) -> (size_hint: u32)
        ensures
            size_hint == query::at_most_u32(self.postings().docs.len()),
    {
        let len: usize = self.list.docs.len();
        if len <= u32::MAX as usize {
            len as u32
        } else {
            u32::MAX
        }
    }

    /// The paths in the document that the cursor stands on.
    pub fn json_array_paths(&self) -> (paths: Option<&[JsonArrayPath]>)
        requires
            self.wf(),
        ensures
            match paths {
                Some(paths) => self.postings().paths_in(self.current()) == Some(
                    path_views(paths@),
                ),
                None => self.postings().paths_in(self.current()) is None,
            },
    {
        proof {
            self.lemma_cursor();
        }
        if self.cursor < self.list.docs.len() {
            match &self.list.json_paths[self.cursor] {
                Some(paths) => Some(paths.as_slice()),
                None => None,
            }
        } else {
            None
        }
    }

    /// The path ids in the document that the cursor stands on.
    pub fn json_array_path_indexes(&self) -> (indexes: Option<&[u32]>)
        requires
            self.wf(),
        ensures
            match indexes {
                Some(indexes) => self.postings().path_indexes_in(self.current()) == Some(
                    indexes@,
                ),
                None => self.postings().path_indexes_in(self.current()) is None,
            },
    {
        proof {
            self.lemma_cursor();
        }
        if self.cursor < self.list.docs.len() {
            match &self.list.json_path_indexes[self.cursor] {
                Some(indexes) => Some(indexes.as_slice()),
                None => None,
            }
        } else {
            None
        }
    }

    /// The current document is the first one that is left.
    pub proof fn lemma_current(self)
        requires
            self.wf(),
        ensures
            self.current() <= TERMINATED,
            self.current() < TERMINATED ==> self.has(self.current()),
            forall|other: DocId| #[trigger]
                self.has(other) ==> self.current() <= other < TERMINATED,
    {
        self.lemma_cursor();
    }

    proof fn lemma_cursor(self)
        requires
            self.wf(),
        ensures
            self.current() == TERMINATED ==> self.cursor == self.postings().docs.len(),
            self.current() < TERMINATED ==> self.has(self.current())
                && self.postings().docs.index_of(self.current()) == self.cursor,
            !self.postings().docs.contains(TERMINATED),
            forall|other: DocId| #[trigger]
                self.has(other) ==> self.current() <= other < TERMINATED,
    {
        let docs = self.postings().docs;
        if self.cursor < docs.len() {
            let here = docs[self.cursor as int];
            assert(self.postings().docs[self.cursor as int] == here);
            let i = docs.index_of(here);
            assert(docs[i] == here);
            if i < self.cursor {
                assert(docs[i] < docs[self.cursor as int]);
            }
            if self.cursor < i {
                assert(docs[self.cursor as int] < docs[i]);
            }
        }
    }
}

impl Clone for SegmentPostings {
    fn clone(&self) -> (copy: Self)
        ensures
            copy == *self,
    {
        SegmentPostings { list: self.list.clone(), cursor: self.cursor }
    }
}

} // verus!
