//! Full-text search over payloads. No words are indexed yet: every document is found.

use crate::index_ivf_rq::Payload;
use vstd::prelude::*;

verus! {

/// A full-text query.
#[derive(Debug, Clone)]
pub struct FulltextQuery {
    pub text: String,
}

impl FulltextQuery {
    /// A query for a text.
    pub fn new<T: Into<String>>(text: T) -> (query: Self)
        requires
            call_requires(T::into, (text,)),
        ensures
            call_ensures(T::into, (text,), query.text),
    {
        FulltextQuery { text: text.into() }
    }
}

/// A full-text index: how many documents it holds.
#[derive(Debug, Clone)]
pub struct FulltextIndex {
    documents: usize,
}

/// The ids of `n` documents, in order: the places of their payloads.
pub open spec fn first_ids(n: nat) -> Seq<u64> {
    Seq::new(n, |i: int| i as u64)
}

impl FulltextIndex {
    /// The ids of the documents in the index, in order.
    pub closed spec fn ids(&self) -> Seq<u64> {
        first_ids(self.documents as nat)
    }

    /// An index without documents.
    pub fn new() -> (index: Self)
        ensures
            index.ids() == first_ids(0),
    {
        FulltextIndex { documents: 0 }
    }

    /// The index of some payloads, each a document.
    pub fn build(payloads: &[Payload]) -> (index: Self)
        ensures
            index.ids() == first_ids(payloads@.len()),
    {
        FulltextIndex { documents: payloads.len() }
    }

    /// All documents of the index, whatever the query is.
    pub fn search(&self, query: &FulltextQuery) -> (found: Vec<u64>)
        ensures
            found@ == self.ids(),
    {
        let mut found: Vec<u64> = Vec::with_capacity(self.documents);
        let mut i: usize = 0;
        while i < self.documents
            invariant
                i <= self.documents,
                found@ == first_ids(i as nat),
            decreases self.documents - i,
        {
            found.push(i as u64);
            i += 1;
            assert(found@ =~= first_ids(i as nat));
        }
        found
    }
}

impl Default for FulltextIndex {
    fn default() -> (index: Self)
        ensures
            index.ids() == first_ids(0),
    {
        FulltextIndex::new()
    }
}

} // verus!
