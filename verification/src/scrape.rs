//! The decision core of the wiki scraper's fetch-with-retry loop, and the
//! scraper's data types.
//!
//! The network work itself (issuing the request, parsing the page, the
//! delay between attempts) happens outside the library; each attempt's
//! outcome is reported back as a [`FetchEvent`], and [`retry_step`] decides
//! what happens next: succeed, wait and retry, or give up with the matching
//! error.

use vstd::prelude::*;

verus! {

/// The fetch gives up after this many failed attempts beyond the first.
pub const MAX_RETRIES: u32 = 3;

/// Milliseconds to wait between attempts.
pub const RETRY_DELAY_MS: u64 = 5000;

/// A page fetch succeeded but held no production-chain table.
#[derive(Clone, Debug)]
pub struct MissingProductionTableError {
    pub url: String,
}

/// A request to fetch one wiki page, retrying on failure.
pub struct RetryRequest<'a> {
    pub url: &'a str,
}

impl<'a> RetryRequest<'a> {
    /// A retrying request for the given page.
    pub fn new(url: &'a str) -> (r: RetryRequest<'a>)
        ensures
            r.url@ == url@,
    {
        RetryRequest { url }
    }
}

/// The scraper of the reference wiki; its page fetching and HTML table
/// reading run outside the library.
pub struct Scraper {}

impl Scraper {
    /// A scraper.
    pub fn new() -> Scraper {
        Scraper {  }
    }
}

/// What one fetch attempt observed.
#[derive(Clone, Copy, Debug, PartialEq, Eq, Structural)]
pub enum FetchEvent {
    /// The page arrived and holds a production-chain table.
    TableFound,
    /// The page arrived without a production-chain table.
    TableMissing,
    /// The request itself failed.
    RequestFailed,
}

/// What the fetch loop does next.
#[derive(Clone, Copy, Debug, PartialEq, Eq, Structural)]
pub enum FetchDecision {
    /// Return the fetched page.
    Succeed,
    /// Wait [`RETRY_DELAY_MS`] and try again, with this retry count.
    RetryAfterDelay { retries: u32 },
    /// Give up: the page never held a production-chain table.
    GiveUpMissingTable,
    /// Give up: the request kept failing.
    GiveUpRequestError,
}

/// One step of the retry loop: succeed on a page with a table; otherwise
/// count the attempt and retry after a delay, until more than
/// [`MAX_RETRIES`] attempts have failed, at which point give up with the
/// error matching the last event.
pub fn retry_step(retries: u32, event: FetchEvent) -> (d: FetchDecision)
    requires
        retries < u32::MAX,
    ensures
        event == FetchEvent::TableFound ==> d == FetchDecision::Succeed,
        event == FetchEvent::TableMissing ==> d == (if retries + 1 > MAX_RETRIES {
            FetchDecision::GiveUpMissingTable
        } else {
            FetchDecision::RetryAfterDelay { retries: (retries + 1) as u32 }
        }),
        event == FetchEvent::RequestFailed ==> d == (if retries + 1 > MAX_RETRIES {
            FetchDecision::GiveUpRequestError
        } else {
            FetchDecision::RetryAfterDelay { retries: (retries + 1) as u32 }
        }),
{
    match event {
        FetchEvent::TableFound => FetchDecision::Succeed,
        FetchEvent::TableMissing => {
            let retries = retries + 1;
            if retries > MAX_RETRIES {
                FetchDecision::GiveUpMissingTable
            } else {
                FetchDecision::RetryAfterDelay { retries }
            }
        },
        FetchEvent::RequestFailed => {
            let retries = retries + 1;
            if retries > MAX_RETRIES {
                FetchDecision::GiveUpRequestError
            } else {
                FetchDecision::RetryAfterDelay { retries }
            }
        },
    }
}

} // verus!
