//! The network seam: one trait, the bounds every fetch answers to, and the
//! failures a fetch can end in.
//!
//! A [`Fetcher`] hands a redirect back rather than following it, so the hop
//! cap and the per-hop scheme check are the library's own
//! ([`crate::media::remote::RedirectWalk`]) and are exercised without a
//! socket.

use vstd::prelude::*;
use crate::loader::MIB;
use crate::text::{decimal, push_decimal, push_str};

verus! {

/// What one request produced, when it produced anything at all.
#[derive(Debug)]
pub enum Fetched {
    /// A 2xx with its body, already bounded.
    Body(Vec<u8>),
    /// A 3xx with its `Location`, verbatim: not yet resolved against the
    /// request URL and not yet scheme-checked.
    Redirect(String),
}

/// The most bytes one response body may be: 256 MiB, the allocation ceiling
/// of the decoder the bytes are headed for.
pub const MAX_RESPONSE_BYTES: u64 = 256 * 1024 * 1024;

/// Every bound a fetch answers to. Durations are in milliseconds.
#[derive(Debug, Clone, Copy)]
pub struct FetchLimits {
    /// Longest a connection may take to open, handshake included.
    pub connect_ms: u64,
    /// Longest one request may take end to end, connect included.
    pub request_ms: u64,
    /// Longest all of a document's fetches together may take; checked before
    /// each request, so the true ceiling is this plus one request.
    pub document_budget_ms: u64,
    /// Most bytes a single response body may be.
    pub max_response_bytes: u64,
    /// Most `Location` hops one URL may take; zero follows none.
    pub max_redirects: u8,
}

impl Default for FetchLimits {
    /// The production bounds: five seconds to connect, ten per request,
    /// twenty per document, the decoder's ceiling per body, four hops.
    fn default() -> (l: FetchLimits)
        ensures
            l.connect_ms == 5000,
            l.request_ms == 10000,
            l.document_budget_ms == 20000,
            l.max_response_bytes == MAX_RESPONSE_BYTES,
            l.max_redirects == 4,
            l.connect_ms > 0 && l.request_ms >= l.connect_ms && l.document_budget_ms >= l.request_ms,
    {
        FetchLimits {
            connect_ms: 5000,
            request_ms: 10000,
            document_budget_ms: 20000,
            max_response_bytes: MAX_RESPONSE_BYTES,
            max_redirects: 4,
        }
    }
}

/// Why a remote image did not become a local file.
#[derive(Debug)]
pub enum FetchError {
    /// A deadline passed.
    Timeout,
    /// The body passed `limit` bytes.
    TooLarge { limit: u64 },
    /// A final status that was neither 2xx nor a redirect.
    Status(u16),
    /// Anything the client itself refused, in its own words.
    Transport(String),
    /// A scheme other than `http` or `https`, as written.
    UnsupportedScheme(String),
    /// More `Location` hops than the cap allows.
    TooManyRedirects { cap: u8 },
    /// A redirect with no usable `http`/`https` target.
    UnusableRedirect,
    /// The bytes are not an image this viewer draws.
    NotAnImage,
    /// The cache could not be written; the text is the operating system's
    /// reason.
    CacheWrite(String),
    /// The document's fetch budget was spent before this image came up.
    BudgetSpent,
}

/// A [`FetchError`], as a value.
pub ghost enum FetchErrorView {
    Timeout,
    TooLarge { limit: u64 },
    Status(u16),
    Transport(Seq<char>),
    UnsupportedScheme(Seq<char>),
    TooManyRedirects { cap: u8 },
    UnusableRedirect,
    NotAnImage,
    CacheWrite(Seq<char>),
    BudgetSpent,
}

impl View for FetchError {
    type V = FetchErrorView;

    open spec fn view(&self) -> FetchErrorView {
        match self {
            FetchError::Timeout => FetchErrorView::Timeout,
            FetchError::TooLarge { limit } => FetchErrorView::TooLarge { limit: *limit },
            FetchError::Status(c) => FetchErrorView::Status(*c),
            FetchError::Transport(s) => FetchErrorView::Transport(s@),
            FetchError::UnsupportedScheme(s) => FetchErrorView::UnsupportedScheme(s@),
            FetchError::TooManyRedirects { cap } => FetchErrorView::TooManyRedirects { cap: *cap },
            FetchError::UnusableRedirect => FetchErrorView::UnusableRedirect,
            FetchError::NotAnImage => FetchErrorView::NotAnImage,
            FetchError::CacheWrite(s) => FetchErrorView::CacheWrite(s@),
            FetchError::BudgetSpent => FetchErrorView::BudgetSpent,
        }
    }
}

/// What [`FetchError::message`] says.
pub open spec fn fetch_error_text(e: FetchErrorView) -> Seq<char> {
    match e {
        FetchErrorView::Timeout => "the host did not answer in time"@,
        FetchErrorView::TooLarge { limit } =>
            "the response is larger than the "@ + decimal((limit / MIB) as nat) + " MiB stele will download"@,
        FetchErrorView::Status(code) => "the host answered "@ + decimal(code as nat),
        FetchErrorView::Transport(reason) => "could not reach the host: "@ + reason,
        FetchErrorView::UnsupportedScheme(scheme) => scheme + " is not a scheme stele will fetch over"@,
        FetchErrorView::TooManyRedirects { cap } => "more than "@ + decimal(cap as nat) + " redirects"@,
        FetchErrorView::UnusableRedirect => "a redirect with no usable http or https target"@,
        FetchErrorView::NotAnImage => "the bytes are not an image stele can draw"@,
        FetchErrorView::CacheWrite(reason) => "could not write the image cache: "@ + reason,
        FetchErrorView::BudgetSpent => "this document's fetch budget was already spent"@,
    }
}

impl FetchError {
    /// The failure as prose, never a debug dump.
    pub fn message(&self) -> (s: String)
        ensures
            s@ == fetch_error_text(self@),
    {
        match self {
            FetchError::Timeout => String::from_str("the host did not answer in time"),
            FetchError::TooLarge { limit } => {
                let mut s = String::from_str("the response is larger than the ");
                push_decimal(&mut s, (*limit / MIB) as u128);
                push_str(&mut s, " MiB stele will download");
                s
            },
            FetchError::Status(code) => {
                let mut s = String::from_str("the host answered ");
                push_decimal(&mut s, *code as u128);
                s
            },
            FetchError::Transport(reason) => {
                let mut s = String::from_str("could not reach the host: ");
                push_str(&mut s, reason.as_str());
                s
            },
            FetchError::UnsupportedScheme(scheme) => {
                let mut s = String::new();
                push_str(&mut s, scheme.as_str());
                push_str(&mut s, " is not a scheme stele will fetch over");
                assert(s@ =~= scheme@ + " is not a scheme stele will fetch over"@);
                s
            },
            FetchError::TooManyRedirects { cap } => {
                let mut s = String::from_str("more than ");
                push_decimal(&mut s, *cap as u128);
                push_str(&mut s, " redirects");
                s
            },
            FetchError::UnusableRedirect => String::from_str("a redirect with no usable http or https target"),
            FetchError::NotAnImage => String::from_str("the bytes are not an image stele can draw"),
            FetchError::CacheWrite(reason) => {
                let mut s = String::from_str("could not write the image cache: ");
                push_str(&mut s, reason.as_str());
                s
            },
            FetchError::BudgetSpent => String::from_str("this document's fetch budget was already spent"),
        }
    }
}

/// One request, bounded by `limits`. Implementations must not follow
/// redirects.
pub trait Fetcher {
    fn fetch(&self, url: &str, limits: &FetchLimits) -> Result<Fetched, FetchError>;
}

/// A fetcher that never fetches: every call is refused as a scheme, so a
/// policy that somehow exists without a client still ends at alt text.
#[derive(Debug, Default)]
pub struct NoFetcher;

impl Fetcher for NoFetcher {
    fn fetch(&self, url: &str, limits: &FetchLimits) -> (r: Result<Fetched, FetchError>)
        ensures
            r matches Err(e) && e@ == FetchErrorView::UnsupportedScheme("<no network>"@),
    {
        let e = FetchError::UnsupportedScheme(String::from_str("<no network>"));
        Err(e)
    }
}

} // verus!
