//! Scorers that read postings: terms, phrases, and whatever else has documents.
use std::sync::Arc;

use vstd::prelude::*;

use crate::query::postings::{PostingList, SegmentPostings};
use crate::query::{Leaf, Scorer, ScorerTree};

verus! {

/// Tells the JSON fields apart whose clauses have to agree on an array element.
pub type JsonConstraintKey = u64;

/// Whether a term scorer reads how often the term occurs in a document.
#[derive(Clone, Copy, Debug, PartialEq, Eq, Structural)]
pub enum FreqReadingOption {
    /// There are no frequencies.
    NoFreq,
    /// There are frequencies, which are passed over.
    SkipFreq,
    /// The frequencies are read.
    ReadFreq,
}

/// Goes through the documents in which a term occurs.
pub struct TermScorer {
    pub(crate) handle: u32,
    pub(crate) postings: SegmentPostings,
    pub(crate) json_constraint_key: Option<JsonConstraintKey>,
    pub(crate) freq_reading_option: FreqReadingOption,
}

impl TermScorer {
    /// A scorer on the first document of `list`.
    pub fn new(
        handle: u32,
        list: Arc<PostingList>,
        json_constraint_key: Option<JsonConstraintKey>,
        freq_reading_option: FreqReadingOption,
    ) -> (scorer: TermScorer)
        ensures
            scorer.wf(),
            Scorer::Term(scorer).fresh(),
            Scorer::Term(scorer).tree() == (ScorerTree::Term {
                leaf: Leaf { handle, postings: list@ },
                json_constraint_key,
                freq_reading_option,
            }),
    {
        TermScorer {
            handle,
            postings: SegmentPostings::new(list),
            json_constraint_key,
            freq_reading_option,
        }
    }

    /// The JSON field whose clauses have to agree with the term.
    pub fn json_constraint_key(&self) -> (key: Option<JsonConstraintKey>)
        ensures
            key == Scorer::Term(*self).tree()->Term_json_constraint_key,
    {
        self.json_constraint_key
    }

    /// How the scorer reads frequencies.
    pub fn freq_reading_option(&self) -> (option: FreqReadingOption)
        ensures
            option == Scorer::Term(*self).tree()->Term_freq_reading_option,
    {
        self.freq_reading_option
    }

    /// The handle that the scorer was made with.
    pub fn handle(&self) -> (handle: u32)
        ensures
            handle == Scorer::Term(*self).tree()->Term_leaf.handle,
    {
        self.handle
    }
}

impl Clone for TermScorer {
    fn clone(&self) -> (copy: Self)
        ensures
            copy == *self,
    {
        TermScorer {
            handle: self.handle,
            postings: self.postings.clone(),
            json_constraint_key: self.json_constraint_key,
            freq_reading_option: self.freq_reading_option,
        }
    }
}

/// Goes through the documents in which a phrase occurs.
pub struct PhraseScorer {
    pub(crate) handle: u32,
    pub(crate) postings: SegmentPostings,
    pub(crate) json_constraint_key: Option<JsonConstraintKey>,
}

impl PhraseScorer {
    /// A scorer on the first document of `list`.
    pub fn new(
        handle: u32,
        list: Arc<PostingList>,
        json_constraint_key: Option<JsonConstraintKey>,
    ) -> (scorer: PhraseScorer)
        ensures
            scorer.wf(),
            Scorer::Phrase(scorer).fresh(),
            Scorer::Phrase(scorer).tree() == (ScorerTree::Phrase {
                leaf: Leaf { handle, postings: list@ },
                json_constraint_key,
            }),
    {
        PhraseScorer { handle, postings: SegmentPostings::new(list), json_constraint_key }
    }

    /// The JSON field whose clauses have to agree with the phrase.
    pub fn json_constraint_key(&self) -> (key: Option<JsonConstraintKey>)
        ensures
            key == Scorer::Phrase(*self).tree()->Phrase_json_constraint_key,
    {
        self.json_constraint_key
    }

    /// The handle that the scorer was made with.
    pub fn handle(&self) -> (handle: u32)
        ensures
            handle == Scorer::Phrase(*self).tree()->Phrase_leaf.handle,
    {
        self.handle
    }
}

impl Clone for PhraseScorer {
    fn clone(&self) -> (copy: Self)
        ensures
            copy == *self,
    {
        PhraseScorer {
            handle: self.handle,
            postings: self.postings.clone(),
            json_constraint_key: self.json_constraint_key,
        }
    }
}

/// Goes through documents that were found in any other way. Nothing is known of the JSON
/// array paths in them.
pub struct OtherScorer {
    pub(crate) handle: u32,
    pub(crate) postings: SegmentPostings,
}

impl OtherScorer {
    /// A scorer on the first document of `list`.
    pub fn new(handle: u32, list: Arc<PostingList>) -> (scorer: OtherScorer)
        ensures
            scorer.wf(),
            Scorer::Other(scorer).fresh(),
            Scorer::Other(scorer).tree() == (ScorerTree::Other {
                leaf: Leaf { handle, postings: list@ },
            }),
    {
        OtherScorer { handle, postings: SegmentPostings::new(list) }
    }

    /// The handle that the scorer was made with.
    pub fn handle(&self) -> (handle: u32)
        ensures
            handle == Scorer::Other(*self).tree()->Other_leaf.handle,
    {
        self.handle
    }
}

impl Clone for OtherScorer {
    fn clone(&self) -> (copy: Self)
        ensures
            copy == *self,
    {
        OtherScorer { handle: self.handle, postings: self.postings.clone() }
    }
}

} // verus!
