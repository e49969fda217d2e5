//! A search result, with its ids materialised so they can be borrowed.
use vstd::prelude::*;

use crate::api::search::SearchResponse;
use crate::document;

verus! {

/// A search result.
///
/// Ids are rendered into owned buffers at construction rather than on access: a string id could
/// be borrowed straight from the hit, but an integer id has no stable buffer to point at, and
/// having one kind return a borrowed pointer while the other returns a cached one is the sort of
/// asymmetry that produces a use-after-free in exactly one binding. Uniform is cheaper than
/// clever.
#[derive(Debug)]
pub struct VdbResults {
    response: SearchResponse,
    ids: Vec<Vec<u8>>,
}

impl VdbResults {
    /// The result held.
    pub closed spec fn spec_response(self) -> SearchResponse {
        self.response
    }

    #[verifier::type_invariant]
    spec fn rendered(self) -> bool {
        &&& self.ids@.len() == self.response.hits@.len()
        &&& forall|i: int|
            0 <= i < self.ids@.len() ==> (#[trigger] self.ids@[i])@ == document::id_bytes(
                self.response.hits@[i].id@,
            )
    }

    /// A result ready to be handed out.
    pub fn new(response: SearchResponse) -> (r: Self)
        ensures
            r.spec_response() == response,
    {
        let mut ids: Vec<Vec<u8>> = Vec::new();
        let mut i: usize = 0;
        while i < response.hits.len()
            invariant
                i <= response.hits@.len(),
                ids@.len() == i,
                forall|k: int|
                    0 <= k < i ==> (#[trigger] ids@[k])@ == document::id_bytes(
                        response.hits@[k].id@,
                    ),
            decreases response.hits.len() - i,
        {
            ids.push(response.hits[i].id.to_bytes());
            i += 1;
        }
        VdbResults { response, ids }
    }

    /// Hits held.
    pub fn len(&self) -> (r: usize)
        ensures
            r == self.spec_response().hits@.len(),
    {
        self.response.hits.len()
    }

    /// The bits of a hit's score, or those of 0 for an out-of-range index.
    ///
    /// Out of range returns a value rather than failing, because these accessors are called in a
    /// loop by binding code and an error path per element would be all cost and no benefit: the
    /// caller has already been told how many there are.
    pub fn score(&self, index: usize) -> (r: u32)
        ensures
            r == if index < self.spec_response().hits@.len() {
                self.spec_response().hits@[index as int].score
            } else {
                0
            },
    {
        if index < self.response.hits.len() {
            self.response.hits[index].score
        } else {
            0
        }
    }

    /// A hit's id bytes, borrowed from the result, or nothing for an out-of-range index.
    pub fn id(&self, index: usize) -> (r: Option<&[u8]>)
        ensures
            if index < self.spec_response().hits@.len() {
                r matches Some(b) && b@ == document::id_bytes(
                    self.spec_response().hits@[index as int].id@,
                )
            } else {
                r is None
            },
    {
        proof {
            use_type_invariant(self);
        }
        if index < self.ids.len() {
            Some(self.ids[index].as_slice())
        } else {
            None
        }
    }
}

} // verus!
