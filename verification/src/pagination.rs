//! Paginated retrieval of a collection resource: the walk's state machine.
//! The surrounding application performs one HTTP request per step and feeds
//! the decoded page back; every decision (termination, the next page
//! number) is made here.

use vstd::prelude::*;

use crate::strutil::parse_digits;

verus! {

/// The page size every request asks for: the remote API's maximum.
pub const PAGE_SIZE: usize = 100;

/// State of one paginated walk: the items collected so far in page order,
/// the page number the next request must ask for, and whether a short page
/// has ended the walk.
pub struct Paginator<T> {
    pub items: Vec<T>,
    pub page: usize,
    pub done: bool,
}

impl<T> Paginator<T> {
    /// Begin a walk: nothing collected, the first request asks for page 0.
    pub fn new() -> (r: Paginator<T>)
        ensures
            r.items@.len() == 0,
            r.page == 0,
            !r.done,
    {
        Paginator { items: Vec::new(), page: 0, done: false }
    }

    /// Account one response page: its items are appended in order.  A page
    /// shorter than `PAGE_SIZE` is the last one and ends the walk,
    /// whatever the hint says; otherwise the next request asks for the
    /// hinted page, or for this page plus one when the hint is absent.
    pub fn feed(&mut self, page_items: Vec<T>, next_hint: Option<usize>)
        requires
            !old(self).done,
            old(self).page < usize::MAX,
        ensures
            final(self).items@ == old(self).items@ + page_items@,
            final(self).done == (page_items@.len() < PAGE_SIZE as int),
            !final(self).done ==> final(self).page as int == (match next_hint {
                Some(n) => n as int,
                None => old(self).page + 1,
            }),
            final(self).done ==> final(self).page == old(self).page,
    {
        let mut incoming = page_items;
        let count = incoming.len();
        self.items.append(&mut incoming);
        if count < PAGE_SIZE {
            self.done = true;
        } else {
            match next_hint {
                Some(n) => {
                    self.page = n;
                },
                None => {
                    self.page = self.page + 1;
                },
            }
        }
    }
}

/// Whether an HTTP status is a success, as the walk demands of every page.
pub fn status_is_success(status: u16) -> (r: bool)
    ensures
        r == (200 <= status < 300),
{
    200 <= status && status < 300
}

/// The next-page hint a response header may carry: a plain decimal number
/// of at most fifteen digits that fits the machine's page type.  An
/// absent, empty or malformed value is no hint.
pub open spec fn page_hint_spec(s: Seq<char>) -> Option<int> {
    match crate::strutil::parse_digits_spec(s) {
        None => None,
        Some(v) => if v <= usize::MAX as int {
            Some(v)
        } else {
            None
        },
    }
}

/// Read a next-page hint.
pub fn parse_page_hint(s: &str) -> (r: Option<usize>)
    ensures
        match r {
            Some(v) => page_hint_spec(s@) == Some(v as int),
            None => page_hint_spec(s@) is None,
        },
{
    match parse_digits(s) {
        None => None,
        Some(v) => {
            if v <= usize::MAX as u64 {
                Some(v as usize)
            } else {
                None
            }
        },
    }
}

} // verus!
