//! The decision half of walking a paginated response stream: given what
//! has happened so far, decide whether another page must be fetched and
//! with which continuation token. The fetching itself is I/O and lives
//! with the caller; this state machine is verified for every outcome the
//! caller can hand back.

use vstd::prelude::*;

verus! {

/// The state of one walk over a paginated listing.
pub struct PageWalker {
    /// The continuation token of the next page, if the last response
    /// announced one.
    pub next_page_token: Option<String>,
    /// Whether any request has been made yet.
    pub has_run: bool,
}

impl PageWalker {
    /// A walk that has not fetched anything yet.
    pub fn new() -> (r: PageWalker)
        ensures
            r.next_page_token is None,
            !r.has_run,
    {
        PageWalker { next_page_token: None, has_run: false }
    }

    /// Decides the next fetch: `None` when the stream is exhausted (a
    /// request was made and no continuation token is pending), otherwise
    /// the optional token to attach to the request. Deciding consumes the
    /// pending token and marks the walk as running.
    pub fn next_request(&mut self) -> (r: Option<Option<String>>)
        ensures
            old(self).has_run && old(self).next_page_token is None ==> r is None && *final(self)
                == *old(self),
            !(old(self).has_run && old(self).next_page_token is None) ==> {
                &&& r == Some(old(self).next_page_token)
                &&& final(self).has_run
                &&& final(self).next_page_token is None
            },
    {
        if self.has_run && self.next_page_token.is_none() {
            return None;
        }
        self.has_run = true;
        let token = self.next_page_token.take();
        Some(token)
    }

    /// Records the continuation token a fetched page announced (or that
    /// it announced none).
    pub fn record_response(&mut self, next_page_token: Option<String>)
        ensures
            final(self).next_page_token == next_page_token,
            final(self).has_run == old(self).has_run,
    {
        self.next_page_token = next_page_token;
    }
}

} // verus!
