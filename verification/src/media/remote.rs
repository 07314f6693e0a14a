//! `![alt](https://host/pic.png)` → `![alt](</cache/…/<key>>)`, before the
//! parse, and only when the reader asked for it.
//!
//! What is decided here: which schemes may be fetched (on the document's URL
//! and on every redirect hop), how a `Location` resolves against the URL it
//! came from, where an image's destination sits on a line, how a cache path
//! is spelled so the parser reads it back unchanged, and how a line is
//! rewritten once its images are resolved. Failure is the ordinary case:
//! every image that cannot be resolved keeps the URL its author wrote.

use vstd::prelude::*;
use vstd::utf8::*;
use crate::link::{activatable, is_ascii_alpha};
use crate::media::fetch::{FetchError, FetchErrorView, Fetched};
use crate::text::{
    chars_of, string_of, trim, trimmed, unicode_whitespace, is_whitespace, leading_ws, count_leading_ws,
    lemma_leading_ws_bound, index_of, lemma_index_of, find_char, occurs_at, find_spec, find_first,
    string_from_utf8, push_str, push_char, starts_with,
};

verus! {

/// `://`.
pub open spec fn separator() -> Seq<char> {
    seq![':', '/', '/']
}

fn separator_chars() -> (v: Vec<char>)
    ensures
        v@ == separator(),
{
    let mut v: Vec<char> = Vec::new();
    v.push(':');
    v.push('/');
    v.push('/');
    assert(v@ =~= separator());
    v
}

/// What [`check_scheme`] answers: `Ok` for `http` and `https` before a
/// `://`, in any case; otherwise the scheme by name — read off the `://`
/// when there is one, off the first `:` when there is not, and the whole
/// destination when there is neither.
pub open spec fn check_scheme_spec(url: Seq<char>) -> Result<(), Seq<char>> {
    match find_spec(url, separator()) {
        Some(k) => if activatable(url.take(k)) { Ok(()) } else { Err(url.take(k)) },
        None => match index_of(url, ':') {
            Some(k) => Err(url.take(k)),
            None => Err(url),
        },
    }
}

fn prefix(s: &[char], k: usize) -> (v: Vec<char>)
    requires
        k <= s@.len(),
    ensures
        v@ == s@.take(k as int),
{
    let (head, _) = s.split_at(k);
    let mut v: Vec<char> = Vec::new();
    let mut i: usize = 0;
    while i < head.len()
        invariant
            i <= head@.len(),
            head@ == s@.take(k as int),
            v@ == head@.take(i as int),
        decreases head@.len() - i,
    {
        v.push(head[i]);
        assert(head@.take(i + 1) =~= head@.take(i as int).push(head@[i as int]));
        i = i + 1;
    }
    assert(head@.take(head@.len() as int) =~= head@);
    v
}

fn is_http(scheme: &[char]) -> (r: bool)
    ensures
        r == activatable(scheme@),
{
    crate::link::scheme_is_activatable(scheme)
}

/// Accepts `http` and `https`, case-insensitively, and refuses everything
/// else by name — `file` and `data` included, though neither has a `//` in
/// the place a naive split would look.
pub fn check_scheme(url: &str) -> (r: Result<(), FetchError>)
    ensures
        match r {
            Ok(()) => check_scheme_spec(url@) is Ok,
            Err(e) => check_scheme_spec(url@) matches Err(named) && e@ == FetchErrorView::UnsupportedScheme(named),
        },
{
    let cs = chars_of(url);
    let sep = separator_chars();
    match find_first(cs.as_slice(), sep.as_slice()) {
        Some(k) => {
            let scheme = prefix(cs.as_slice(), k);
            if is_http(scheme.as_slice()) {
                Ok(())
            } else {
                Err(FetchError::UnsupportedScheme(string_of(scheme.as_slice())))
            }
        },
        None => match find_char(cs.as_slice(), 0, ':') {
            Some(k) => {
                proof {
                    lemma_index_of(cs@, ':', k as int);
                }
                let named = prefix(cs.as_slice(), k);
                Err(FetchError::UnsupportedScheme(string_of(named.as_slice())))
            },
            None => {
                assert(!cs@.contains(':'));
                Err(FetchError::UnsupportedScheme(url.to_owned()))
            },
        },
    }
}

// ------------------------------------------------------------ redirects

/// The first index below `n` of `/`, `?` or `#` in `s`.
pub open spec fn first_authority_end(s: Seq<char>, n: int) -> Option<int>
    decreases n,
{
    if n <= 0 {
        None
    } else {
        match first_authority_end(s, n - 1) {
            Some(k) => Some(k),
            None => if s[n - 1] == '/' || s[n - 1] == '?' || s[n - 1] == '#' { Some(n - 1) } else { None },
        }
    }
}

/// The authority of what follows a URL's `://`: everything up to the first
/// `/`, `?` or `#`.
pub open spec fn authority(after: Seq<char>) -> Seq<char> {
    match first_authority_end(after, after.len() as int) {
        Some(k) => after.take(k),
        None => after,
    }
}

/// A `Location` resolved against the URL it came from. Three forms only: an
/// absolute URL, a protocol-relative `//host/…`, and a root-relative
/// `/path`; anything else is `None`, and the image keeps its alt text.
pub open spec fn join_spec(base: Seq<char>, location: Seq<char>) -> Option<Seq<char>> {
    let l = trim(location);
    if l.len() == 0 {
        None
    } else if find_spec(l, separator()) is Some {
        Some(l)
    } else {
        match find_spec(base, separator()) {
            None => None,
            Some(k) => {
                let scheme = base.take(k);
                let after = base.skip(k + 3);
                if starts_with(l, seq!['/', '/']) {
                    Some(scheme + separator() + l.skip(2))
                } else if starts_with(l, seq!['/']) {
                    Some(scheme + separator() + authority(after) + l)
                } else {
                    None
                }
            },
        }
    }
}

proof fn lemma_first_authority_end_stays(s: Seq<char>, m: int, n: int)
    requires
        0 <= m <= n,
        first_authority_end(s, m) is Some,
    ensures
        first_authority_end(s, n) == first_authority_end(s, m),
    decreases n - m,
{
    if n > m {
        lemma_first_authority_end_stays(s, m, n - 1);
    }
}

fn authority_of(after: &[char]) -> (v: Vec<char>)
    ensures
        v@ == authority(after@),
{
    let mut i: usize = 0;
    while i < after.len()
        invariant
            i <= after@.len(),
            first_authority_end(after@, i as int) is None,
        decreases after@.len() - i,
    {
        let c = after[i];
        if c == '/' || c == '?' || c == '#' {
            proof {
                assert(first_authority_end(after@, i + 1) == Some(i as int));
                lemma_first_authority_end_stays(after@, i + 1, after@.len() as int);
            }
            return prefix(after, i);
        }
        i = i + 1;
    }
    prefix(after, after.len())
}

fn push_all(out: &mut Vec<char>, s: &[char])
    ensures
        final(out)@ == old(out)@ + s@,
{
    let mut i: usize = 0;
    while i < s.len()
        invariant
            i <= s@.len(),
            out@ == old(out)@ + s@.take(i as int),
        decreases s@.len() - i,
    {
        out.push(s[i]);
        assert(s@.take(i + 1) =~= s@.take(i as int).push(s@[i as int]));
        i = i + 1;
    }
    assert(s@.take(s@.len() as int) =~= s@);
}

/// A `Location` header resolved against the URL it came from.
pub fn join(base: &str, location: &str) -> (r: Option<String>)
    ensures
        match r {
            Some(u) => join_spec(base@, location@) == Some(u@),
            None => join_spec(base@, location@) is None,
        },
{
    let lc = chars_of(location);
    let l = trimmed(lc.as_slice());
    if l.len() == 0 {
        return None;
    }
    let sep = separator_chars();
    if find_first(l.as_slice(), sep.as_slice()).is_some() {
        return Some(string_of(l.as_slice()));
    }
    let bc = chars_of(base);
    let k = match find_first(bc.as_slice(), sep.as_slice()) {
        Some(k) => k,
        None => return None,
    };
    let bl = bc.len();
    assert(k + 3 <= bl);
    let (_, tail) = bc.as_slice().split_at(k + 3);
    let mut out = prefix(bc.as_slice(), k);
    let ghost scheme = out@;
    if l.len() >= 2 && l[0] == '/' && l[1] == '/' {
        assert(starts_with(l@, seq!['/', '/'])) by {
            assert(l@.take(2) =~= seq!['/', '/']);
        }
        push_all(&mut out, sep.as_slice());
        let (_, rest) = l.as_slice().split_at(2);
        push_all(&mut out, rest);
        assert(out@ =~= scheme + separator() + l@.skip(2));
        return Some(string_of(out.as_slice()));
    }
    assert(!starts_with(l@, seq!['/', '/'])) by {
        if starts_with(l@, seq!['/', '/']) {
            assert(l@.take(2)[0] == l@[0] && l@.take(2)[1] == l@[1]);
        }
    }
    if l[0] == '/' {
        assert(starts_with(l@, seq!['/'])) by {
            assert(l@.take(1) =~= seq!['/']);
        }
        push_all(&mut out, sep.as_slice());
        let auth = authority_of(tail);
        push_all(&mut out, auth.as_slice());
        push_all(&mut out, l.as_slice());
        assert(out@ =~= scheme + separator() + authority(bc@.skip(k + 3)) + l@);
        return Some(string_of(out.as_slice()));
    }
    assert(!starts_with(l@, seq!['/'])) by {
        if starts_with(l@, seq!['/']) {
            assert(l@.take(1)[0] == l@[0]);
        }
    }
    None
}

/// How far a redirect chain has come, as a value.
pub ghost struct WalkView {
    /// The URL the document named.
    pub origin: Seq<char>,
    /// The URL the next request goes to.
    pub current: Seq<char>,
    /// How many requests have been made.
    pub requests: nat,
    /// How many hops may be followed.
    pub cap: u8,
}

/// A redirect chain being walked, one request at a time.
///
/// The requests are the caller's: [`RedirectWalk::current`] is the URL to
/// fetch, [`RedirectWalk::on_reply`] takes the reply back. Every URL this
/// walk ever names has passed [`check_scheme`] — the document's own and each
/// hop's — and no more than `cap + 1` requests are made.
pub struct RedirectWalk {
    origin: String,
    current: String,
    requests: u32,
    cap: u8,
}

impl View for RedirectWalk {
    type V = WalkView;

    closed spec fn view(&self) -> WalkView {
        WalkView { origin: self.origin@, current: self.current@, requests: self.requests as nat, cap: self.cap }
    }
}

impl RedirectWalk {
    /// Whether this walk is one [`RedirectWalk::start`] and
    /// [`RedirectWalk::on_reply`] produce.
    pub closed spec fn wf(&self) -> bool {
        &&& check_scheme_spec(self.current@) is Ok
        &&& self.requests <= self.cap as u32 + 1
    }

    /// Starts walking from `url`, the document's own destination, with
    /// `cap` hops allowed — refused at once when its scheme is not one to
    /// fetch over.
    pub fn start(url: &str, cap: u8) -> (r: Result<RedirectWalk, FetchError>)
        ensures
            match r {
                Ok(w) => w.wf() && w@ == (WalkView { origin: url@, current: url@, requests: 0, cap })
                    && check_scheme_spec(url@) is Ok,
                Err(e) => check_scheme_spec(url@) matches Err(named) && e@ == FetchErrorView::UnsupportedScheme(named),
            },
    {
        match check_scheme(url) {
            Ok(()) => Ok(RedirectWalk { origin: url.to_owned(), current: url.to_owned(), requests: 0, cap }),
            Err(e) => Err(e),
        }
    }

    /// The URL the next request goes to.
    pub fn current(&self) -> (u: &str)
        ensures
            u@ == self@.current,
    {
        self.current.as_str()
    }

    /// The URL the document named, which the bytes are filed under.
    pub fn origin(&self) -> (u: &str)
        ensures
            u@ == self@.origin,
    {
        self.origin.as_str()
    }

    /// Whether another request may be made: `cap` hops mean `cap + 1`
    /// requests.
    pub fn may_request(&self) -> (r: bool)
        requires
            self.wf(),
        ensures
            r == (self@.requests <= self@.cap as nat),
    {
        self.requests <= self.cap as u32
    }

    /// Takes back the reply to the request made to [`RedirectWalk::current`]:
    /// a body ends the walk with its bytes; a redirect moves it on to the
    /// resolved, scheme-checked `Location`, or ends it with the reason that
    /// could not be done.
    pub fn on_reply(&mut self, reply: Fetched) -> (r: Result<Option<Vec<u8>>, FetchError>)
        requires
            old(self).wf(),
            old(self)@.requests <= old(self)@.cap as nat,
        ensures
            final(self).wf(),
            final(self)@.origin == old(self)@.origin,
            final(self)@.cap == old(self)@.cap,
            final(self)@.requests == old(self)@.requests + 1,
            match reply {
                Fetched::Body(bytes) => r matches Ok(Some(b)) && b@ == bytes@ && final(self)@.current == old(self)@.current,
                Fetched::Redirect(location) => match join_spec(old(self)@.current, location@) {
                    None => r matches Err(e) && e@ == FetchErrorView::UnusableRedirect,
                    Some(next) => match check_scheme_spec(next) {
                        Ok(()) => r matches Ok(None) && final(self)@.current == next,
                        Err(named) => r matches Err(e) && e@ == FetchErrorView::UnsupportedScheme(named)
                            && final(self)@.current == old(self)@.current,
                    },
                },
            },
    {
        self.requests = self.requests + 1;
        match reply {
            Fetched::Body(bytes) => Ok(Some(bytes)),
            Fetched::Redirect(location) => {
                let next = match join(self.current.as_str(), location.as_str()) {
                    Some(n) => n,
                    None => return Err(FetchError::UnusableRedirect),
                };
                match check_scheme(next.as_str()) {
                    Ok(()) => {
                        self.current = next;
                        Ok(None)
                    },
                    Err(e) => Err(e),
                }
            },
        }
    }

    /// The refusal once every allowed request has been spent on redirects.
    pub fn exhausted(&self) -> (e: FetchError)
        ensures
            e@ == (FetchErrorView::TooManyRedirects { cap: self@.cap }),
    {
        FetchError::TooManyRedirects { cap: self.cap }
    }
}

/// Every URL a walk names passes the scheme check, and it never names more
/// requests than its cap allows: a walk that starts at an `https` document
/// URL and is redirected to `file:` stops there.
pub proof fn law_every_hop_is_scheme_checked(w: RedirectWalk)
    requires
        w.wf(),
    ensures
        check_scheme_spec(w@.current) is Ok,
        w@.requests <= w@.cap + 1,
{
}

// ------------------------------------------------------------ the scanner

/// The index of the `close` that balances an `open` already counted
/// `depth` deep, scanning from `i`; a backslash escapes the character after
/// it.
pub open spec fn match_close(s: Seq<char>, i: int, depth: nat, open: char, close: char) -> Option<int>
    decreases s.len() - i,
{
    if i < 0 || i >= s.len() {
        None
    } else if s[i] == '\\' {
        if i + 2 <= s.len() { match_close(s, i + 2, depth, open, close) } else { None }
    } else if s[i] == open {
        match_close(s, i + 1, depth + 1, open, close)
    } else if s[i] == close {
        if depth <= 1 { Some(i) } else { match_close(s, i + 1, (depth - 1) as nat, open, close) }
    } else {
        match_close(s, i + 1, depth, open, close)
    }
}

proof fn lemma_match_close_bounds(s: Seq<char>, i: int, depth: nat, open: char, close: char)
    ensures
        match_close(s, i, depth, open, close) matches Some(k) ==> i <= k < s.len() && s[k] == close,
    decreases s.len() - i,
{
    if 0 <= i < s.len() {
        if s[i] == '\\' {
            if i + 2 <= s.len() {
                lemma_match_close_bounds(s, i + 2, depth, open, close);
            }
        } else if s[i] == open {
            lemma_match_close_bounds(s, i + 1, depth + 1, open, close);
        } else if s[i] == close {
            if depth > 1 {
                lemma_match_close_bounds(s, i + 1, (depth - 1) as nat, open, close);
            }
        } else {
            lemma_match_close_bounds(s, i + 1, depth, open, close);
        }
    }
}

/// The first index below `n` of a whitespace character.
pub open spec fn first_ws(s: Seq<char>, n: int) -> Option<int>
    decreases n,
{
    if n <= 0 {
        None
    } else {
        match first_ws(s, n - 1) {
            Some(k) => Some(k),
            None => if unicode_whitespace(s[n - 1]) { Some(n - 1) } else { None },
        }
    }
}

/// One `![alt](dest …)` on a line, in character offsets: where it starts,
/// where its destination sits, and just past its closing `)`. `dest` is the
/// destination without the `<…>` delimiters, if it had them.
#[derive(Debug, Clone, PartialEq, Eq)]
pub struct ImageSpan {
    pub start: usize,
    pub dest_start: usize,
    pub dest_end: usize,
    pub end: usize,
    pub dest: String,
}

/// An [`ImageSpan`], as a value.
pub ghost struct SpanView {
    pub start: int,
    pub dest_start: int,
    pub dest_end: int,
    pub end: int,
    pub dest: Seq<char>,
}

impl View for ImageSpan {
    type V = SpanView;

    open spec fn view(&self) -> SpanView {
        SpanView {
            start: self.start as int,
            dest_start: self.dest_start as int,
            dest_end: self.dest_end as int,
            end: self.end as int,
            dest: self.dest@,
        }
    }
}

/// How long the destination at the front of `rest` is: a `<…>` form up to
/// its `>`, or a bare run up to the first whitespace; `None` for a `<` with
/// no `>`.
pub open spec fn dest_len(rest: Seq<char>) -> Option<int> {
    if rest.len() > 0 && rest[0] == '<' {
        match index_of(rest, '>') {
            Some(q) => Some(q + 1),
            None => None,
        }
    } else {
        match first_ws(rest, rest.len() as int) {
            Some(q) => Some(q),
            None => Some(rest.len() as int),
        }
    }
}

/// The image whose `![` is at `start`, as the scanner reads it: alt text
/// with balanced brackets, then `(` at once, then a destination with
/// balanced parentheses, optionally followed by a title.
pub open spec fn image_at_spec(s: Seq<char>, start: int) -> Option<SpanView> {
    match match_close(s, start + 2, 1, '[', ']') {
        None => None,
        Some(c) => if c + 1 < s.len() && s[c + 1] == '(' {
            let inner_start = c + 2;
            match match_close(s, inner_start, 1, '(', ')') {
                None => None,
                Some(p) => {
                    let dest_start = inner_start + leading_ws(s.subrange(inner_start, p));
                    let rest = s.subrange(dest_start, p);
                    match dest_len(rest) {
                        None => None,
                        Some(n) => {
                            let dest_end = dest_start + n;
                            Some(SpanView {
                                start,
                                dest_start,
                                dest_end,
                                end: p + 1,
                                dest: if rest.len() > 0 && rest[0] == '<' {
                                    s.subrange(dest_start + 1, dest_end - 1)
                                } else {
                                    s.subrange(dest_start, dest_end)
                                },
                            })
                        },
                    }
                },
            }
        } else {
            None
        },
    }
}

fn scan_close(s: &[char], from: usize, open: char, close: char) -> (r: Option<usize>)
    requires
        1 <= from <= s@.len(),
    ensures
        match r {
            Some(k) => match_close(s@, from as int, 1, open, close) == Some(k as int),
            None => match_close(s@, from as int, 1, open, close) is None,
        },
{
    let mut cursor = from;
    let mut depth: usize = 1;
    while cursor < s.len()
        invariant
            depth >= 1,
            depth <= cursor,
            cursor <= s@.len(),
            match_close(s@, from as int, 1, open, close) == match_close(s@, cursor as int, depth as nat, open, close),
        decreases s@.len() - cursor,
    {
        let c = s[cursor];
        if c == '\\' {
            if s.len() - cursor >= 2 {
                cursor = cursor + 2;
                depth = depth;
            } else {
                return None;
            }
        } else if c == open {
            depth = depth + 1;
            cursor = cursor + 1;
        } else if c == close {
            if depth <= 1 {
                return Some(cursor);
            }
            depth = depth - 1;
            cursor = cursor + 1;
        } else {
            cursor = cursor + 1;
        }
    }
    None
}

fn slice_of(s: &[char], lo: usize, hi: usize) -> (v: Vec<char>)
    requires
        lo <= hi <= s@.len(),
    ensures
        v@ == s@.subrange(lo as int, hi as int),
{
    let mut v: Vec<char> = Vec::new();
    let mut i = lo;
    while i < hi
        invariant
            lo <= i <= hi <= s@.len(),
            v@ == s@.subrange(lo as int, i as int),
        decreases hi - i,
    {
        v.push(s[i]);
        assert(s@.subrange(lo as int, i + 1) =~= s@.subrange(lo as int, i as int).push(s@[i as int]));
        i = i + 1;
    }
    v
}

proof fn lemma_first_ws_stays(s: Seq<char>, m: int, n: int)
    requires
        0 <= m <= n,
        first_ws(s, m) is Some,
    ensures
        first_ws(s, n) == first_ws(s, m),
    decreases n - m,
{
    if n > m {
        lemma_first_ws_stays(s, m, n - 1);
    }
}

fn dest_len_of(rest: &[char]) -> (r: Option<usize>)
    ensures
        match r {
            Some(n) => dest_len(rest@) == Some(n as int) && n <= rest@.len()
                && (rest@.len() > 0 && rest@[0] == '<' ==> n >= 2),
            None => dest_len(rest@) is None,
        },
{
    if rest.len() > 0 && rest[0] == '<' {
        match find_char(rest, 0, '>') {
            Some(q) => {
                proof {
                    lemma_index_of(rest@, '>', q as int);
                }
                Some(q + 1)
            },
            None => {
                assert(!rest@.contains('>'));
                None
            },
        }
    } else {
        let mut i: usize = 0;
        while i < rest.len()
            invariant
                i <= rest@.len(),
                !(rest@.len() > 0 && rest@[0] == '<'),
                first_ws(rest@, i as int) is None,
            decreases rest@.len() - i,
        {
            if is_whitespace(rest[i]) {
                proof {
                    assert(first_ws(rest@, i + 1) == Some(i as int));
                    lemma_first_ws_stays(rest@, i + 1, rest@.len() as int);
                }
                return Some(i);
            }
            i = i + 1;
        }
        Some(rest.len())
    }
}

/// The image whose `![` is at `start` on `line`, in character offsets.
#[verifier::rlimit(40)]
pub fn image_at(line: &[char], start: usize) -> (r: Option<ImageSpan>)
    requires
        start + 2 <= line@.len(),
    ensures
        match r {
            Some(sp) => image_at_spec(line@, start as int) == Some(sp@),
            None => image_at_spec(line@, start as int) is None,
        },
{
    let len = line.len();
    let c = match scan_close(line, start + 2, '[', ']') {
        Some(c) => c,
        None => return None,
    };
    proof {
        lemma_match_close_bounds(line@, start + 2, 1, '[', ']');
    }
    assert(c < len);
    if !(len - c > 1 && line[c + 1] == '(') {
        return None;
    }
    let inner_start = c + 2;
    let p = match scan_close(line, inner_start, '(', ')') {
        Some(p) => p,
        None => return None,
    };
    proof {
        lemma_match_close_bounds(line@, inner_start as int, 1, '(', ')');
    }
    let inner = slice_of(line, inner_start, p);
    let lead = count_leading_ws(inner.as_slice());
    proof {
        lemma_leading_ws_bound(inner@);
    }
    let dest_start = inner_start + lead;
    let rest = slice_of(line, dest_start, p);
    let n = match dest_len_of(rest.as_slice()) {
        Some(n) => n,
        None => return None,
    };
    let dest_end = dest_start + n;
    let dest = if rest.len() > 0 && rest[0] == '<' {
        slice_of(line, dest_start + 1, dest_end - 1)
    } else {
        slice_of(line, dest_start, dest_end)
    };
    Some(ImageSpan { start, dest_start, dest_end, end: p + 1, dest: string_of(dest.as_slice()) })
}

/// Every image the rewriter finds on `s` from `cursor` on: at each `![`, an
/// image if one starts there — the scan then resumes past it — and the next
/// character otherwise.
pub open spec fn images_from(s: Seq<char>, cursor: int) -> Seq<SpanView>
    decreases s.len() - cursor,
{
    if cursor < 0 || cursor + 1 >= s.len() {
        Seq::empty()
    } else if s[cursor] == '!' && s[cursor + 1] == '[' && image_at_spec(s, cursor) is Some {
        let sp = image_at_spec(s, cursor)->0;
        if cursor < sp.end <= s.len() {
            seq![sp] + images_from(s, sp.end)
        } else {
            Seq::empty()
        }
    } else {
        images_from(s, cursor + 1)
    }
}

proof fn lemma_image_at_shape(s: Seq<char>, start: int)
    requires
        0 <= start,
        image_at_spec(s, start) is Some,
    ensures
        ({
            let sp = image_at_spec(s, start)->0;
            &&& sp.start == start
            &&& start + 4 <= sp.dest_start <= sp.dest_end < sp.end <= s.len()
            &&& sp.dest.len() <= sp.dest_end - sp.dest_start
        }),
{
    lemma_match_close_bounds(s, start + 2, 1, '[', ']');
    let c = match_close(s, start + 2, 1, '[', ']')->0;
    lemma_match_close_bounds(s, c + 2, 1, '(', ')');
    let p = match_close(s, c + 2, 1, '(', ')')->0;
    lemma_leading_ws_bound(s.subrange(c + 2, p));
    let dest_start = c + 2 + leading_ws(s.subrange(c + 2, p));
    let rest = s.subrange(dest_start, p);
    if rest.len() > 0 && rest[0] == '<' {
        let q = index_of(rest, '>')->0;
        assert(rest.contains('>'));
        let w = choose|i: int| 0 <= i < rest.len() && rest[i] == '>' && forall|k: int| 0 <= k < i ==> rest[k] != '>';
        assert(exists|i: int| 0 <= i < rest.len() && rest[i] == '>' && forall|k: int| 0 <= k < i ==> rest[k] != '>') by {
            let j = choose|j: int| 0 <= j < rest.len() && rest[j] == '>';
            lemma_exists_first_gt(rest, j);
        }
        assert(1 <= q < rest.len()) by {
            assert(rest[q] == '>');
        }
    } else {
        lemma_first_ws_bound(rest, rest.len() as int);
    }
}

proof fn lemma_exists_first_gt(s: Seq<char>, j: int)
    requires
        0 <= j < s.len(),
        s[j] == '>',
    ensures
        exists|i: int| 0 <= i < s.len() && s[i] == '>' && forall|k: int| 0 <= k < i ==> s[k] != '>',
    decreases j,
{
    if exists|k: int| 0 <= k < j && s[k] == '>' {
        let k = choose|k: int| 0 <= k < j && s[k] == '>';
        lemma_exists_first_gt(s, k);
    } else {
        assert(forall|k: int| 0 <= k < j ==> s[k] != '>');
    }
}

proof fn lemma_first_ws_bound(s: Seq<char>, n: int)
    ensures
        first_ws(s, n) matches Some(k) ==> 0 <= k < n,
    decreases n,
{
    if n > 0 {
        lemma_first_ws_bound(s, n - 1);
    }
}

/// Whether `spans` lie on a line of `len` characters in order and apart,
/// each with its destination inside it.
pub open spec fn spans_ordered(spans: Seq<SpanView>, len: int) -> bool {
    &&& forall|i: int| 0 <= i < spans.len() ==> {
        let sp = #[trigger] spans[i];
        0 <= sp.start < sp.dest_start <= sp.dest_end < sp.end <= len
    }
    &&& forall|i: int| 0 <= i < spans.len() - 1 ==> (#[trigger] spans[i]).end <= spans[i + 1].start
}

proof fn lemma_images_from_ordered(s: Seq<char>, cursor: int)
    requires
        cursor >= 0,
    ensures
        spans_ordered(images_from(s, cursor), s.len() as int),
        forall|i: int| 0 <= i < images_from(s, cursor).len() ==> (#[trigger] images_from(s, cursor)[i]).start >= cursor,
    decreases s.len() - cursor,
{
    if cursor + 1 >= s.len() {
    } else if s[cursor] == '!' && s[cursor + 1] == '[' && image_at_spec(s, cursor) is Some {
        let sp = image_at_spec(s, cursor)->0;
        lemma_image_at_shape(s, cursor);
        if cursor < sp.end <= s.len() {
            lemma_images_from_ordered(s, sp.end);
            let tail = images_from(s, sp.end);
            let all = seq![sp] + tail;
            assert(images_from(s, cursor) == all);
            assert forall|i: int| 0 <= i < all.len() - 1 implies (#[trigger] all[i]).end <= all[i + 1].start by {
                if i == 0 {
                    assert(all[1] == tail[0]);
                } else {
                    assert(all[i] == tail[i - 1] && all[i + 1] == tail[i]);
                }
            }
            assert forall|i: int| 0 <= i < all.len() implies (#[trigger] all[i]).start >= cursor by {
                if i > 0 {
                    assert(all[i] == tail[i - 1]);
                }
            }
            assert forall|i: int| 0 <= i < all.len() implies {
                let q = #[trigger] all[i];
                0 <= q.start < q.dest_start <= q.dest_end < q.end <= s.len()
            } by {
                if i > 0 {
                    assert(all[i] == tail[i - 1]);
                }
            }
        }
    } else {
        lemma_images_from_ordered(s, cursor + 1);
    }
}

/// Every image on `line`, in order, as the rewriter finds them.
#[verifier::spinoff_prover]
#[verifier::rlimit(40)]
pub fn images_in(line: &[char]) -> (r: Vec<ImageSpan>)
    ensures
        r@.len() == images_from(line@, 0).len(),
        forall|i: int| 0 <= i < r@.len() ==> (#[trigger] r@[i])@ == images_from(line@, 0)[i],
        spans_ordered(images_from(line@, 0), line@.len() as int),
{
    proof {
        lemma_images_from_ordered(line@, 0);
    }
    let mut out: Vec<ImageSpan> = Vec::new();
    let mut cursor: usize = 0;
    while line.len() - cursor > 1
        invariant
            cursor <= line@.len(),
            out@.len() + images_from(line@, cursor as int).len() == images_from(line@, 0).len(),
            forall|i: int| 0 <= i < out@.len() ==> (#[trigger] out@[i])@ == images_from(line@, 0)[i],
            forall|i: int| 0 <= i < images_from(line@, cursor as int).len()
                ==> images_from(line@, cursor as int)[i] == images_from(line@, 0)[out@.len() + i],
        decreases line@.len() - cursor,
    {
        let ghost before = images_from(line@, cursor as int);
        if line[cursor] != '!' || line[cursor + 1] != '[' {
            cursor = cursor + 1;
            continue;
        }
        match image_at(line, cursor) {
            None => {
                cursor = cursor + 1;
            },
            Some(sp) => {
                proof {
                    lemma_image_at_shape(line@, cursor as int);
                }
                let end = sp.end;
                let ghost k = out@.len();
                assert(before == seq![sp@] + images_from(line@, end as int));
                assert(before[0] == sp@);
                out.push(sp);
                assert forall|i: int| 0 <= i < images_from(line@, end as int).len()
                    implies images_from(line@, end as int)[i] == images_from(line@, 0)[out@.len() + i] by {
                    assert(images_from(line@, end as int)[i] == before[i + 1]);
                }
                cursor = end;
            },
        }
    }
    out
}

/// `line` with each image whose replacement is `Some` repointed at it, the
/// rest of the line copied as it stands, from span `i` on and the character
/// `copied` on.
pub open spec fn splice_from(s: Seq<char>, spans: Seq<SpanView>, reps: Seq<Option<Seq<char>>>, i: int, copied: int) -> Seq<char>
    decreases spans.len() - i,
{
    if i < 0 || i >= spans.len() {
        s.subrange(copied, s.len() as int)
    } else {
        match reps[i] {
            Some(d) => s.subrange(copied, spans[i].dest_start) + d + s.subrange(spans[i].dest_end, spans[i].end)
                + splice_from(s, spans, reps, i + 1, spans[i].end),
            None => splice_from(s, spans, reps, i + 1, copied),
        }
    }
}

/// What [`rewrite_line`] makes of `line` given a replacement for each of its
/// images: `None` when no image was replaced.
pub open spec fn rewrite_line_spec(line: Seq<char>, reps: Seq<Option<Seq<char>>>) -> Option<Seq<char>> {
    if exists|i: int| 0 <= i < reps.len() && reps[i] is Some {
        Some(splice_from(line, images_from(line, 0), reps, 0, 0))
    } else {
        None
    }
}

/// The replacements, as values.
pub open spec fn reps_view(reps: Seq<Option<String>>) -> Seq<Option<Seq<char>>> {
    Seq::new(reps.len(), |i: int| match reps[i] {
        Some(d) => Some(d@),
        None => None,
    })
}

/// One line with its images repointed: `reps[i]` is the new destination for
/// the `i`-th image [`images_in`] finds, or `None` to leave that one as its
/// author wrote it. `None` when nothing on the line changed.
pub fn rewrite_line(line: &[char], reps: &[Option<String>]) -> (r: Option<String>)
    requires
        reps@.len() == images_from(line@, 0).len(),
    ensures
        match r {
            Some(t) => rewrite_line_spec(line@, reps_view(reps@)) == Some(t@),
            None => rewrite_line_spec(line@, reps_view(reps@)) is None,
        },
{
    let spans = images_in(line);
    let ghost sv = images_from(line@, 0);
    let ghost rv = reps_view(reps@);
    let mut out: Vec<char> = Vec::new();
    let mut copied: usize = 0;
    let mut rewrote = false;
    let mut i: usize = 0;
    while i < spans.len()
        invariant
            i <= spans@.len(),
            spans@.len() == sv.len(),
            sv.len() == reps@.len(),
            rv.len() == reps@.len(),
            forall|j: int| 0 <= j < spans@.len() ==> (#[trigger] spans@[j])@ == sv[j],
            spans_ordered(sv, line@.len() as int),
            rv == reps_view(reps@),
            copied <= line@.len(),
            i < sv.len() ==> copied <= sv[i as int].start,
            out@ + splice_from(line@, sv, rv, i as int, copied as int) == splice_from(line@, sv, rv, 0, 0),
            rewrote == exists|j: int| 0 <= j < i && rv[j] is Some,
        decreases spans@.len() - i,
    {
        let ghost before = out@;
        let ghost was = copied as int;
        let sp = &spans[i];
        assert(sp@ == sv[i as int]);
        let ghost q = sv[i as int];
        assert(0 <= q.start < q.dest_start <= q.dest_end < q.end <= line@.len());
        match &reps[i] {
            Some(d) => {
                assert(rv[i as int] == Some(d@));
                let head = slice_of(line, copied, sp.dest_start);
                push_all(&mut out, head.as_slice());
                let dc = chars_of(d.as_str());
                push_all(&mut out, dc.as_slice());
                let tail = slice_of(line, sp.dest_end, sp.end);
                push_all(&mut out, tail.as_slice());
                copied = sp.end;
                rewrote = true;
                assert(splice_from(line@, sv, rv, i as int, was) == line@.subrange(was, q.dest_start) + d@
                    + line@.subrange(q.dest_end, q.end) + splice_from(line@, sv, rv, i + 1, q.end));
                assert(out@ + splice_from(line@, sv, rv, i + 1, copied as int)
                    =~= before + splice_from(line@, sv, rv, i as int, was));
            },
            None => {
                assert(rv[i as int] is None);
                assert(splice_from(line@, sv, rv, i as int, was) == splice_from(line@, sv, rv, i + 1, was));
            },
        }
        if i + 1 < spans.len() {
            assert(sv[i as int].end <= sv[i + 1].start);
        }
        i = i + 1;
    }
    if !rewrote {
        return None;
    }
    let tail = slice_of(line, copied, line.len());
    push_all(&mut out, tail.as_slice());
    Some(string_of(out.as_slice()))
}

// ------------------------------------------------------------ spelling

/// `s` with every backslash doubled.
pub open spec fn escape_backslashes(s: Seq<char>) -> Seq<char>
    decreases s.len(),
{
    if s.len() == 0 {
        Seq::empty()
    } else {
        escape_backslashes(s.drop_last()) + if s.last() == '\\' { seq!['\\', '\\'] } else { seq![s.last()] }
    }
}

/// What [`markdown_destination`] spells `path` as: the `<…>` form with
/// backslashes escaped, or `None` when the path is not text or holds a `<`,
/// `>` or line break, which the pointy form cannot carry.
pub open spec fn markdown_destination_spec(path: Seq<u8>) -> Option<Seq<char>> {
    if !valid_utf8(path) {
        None
    } else {
        let t = decode_utf8(path);
        if t.contains('<') || t.contains('>') || t.contains('\n') || t.contains('\r') {
            None
        } else {
            Some(seq!['<'] + escape_backslashes(t) + seq!['>'])
        }
    }
}

/// `path` written so CommonMark reads it back as exactly this path, or
/// `None` when no such spelling exists. Always the `<…>` form, since a cache
/// directory may hold a space.
pub fn markdown_destination(path: &[u8]) -> (r: Option<String>)
    ensures
        match r {
            Some(d) => markdown_destination_spec(path@) == Some(d@),
            None => markdown_destination_spec(path@) is None,
        },
{
    let mut bytes: Vec<u8> = Vec::new();
    let mut k: usize = 0;
    while k < path.len()
        invariant
            k <= path@.len(),
            bytes@ == path@.take(k as int),
        decreases path@.len() - k,
    {
        bytes.push(path[k]);
        assert(path@.take(k + 1) =~= path@.take(k as int).push(path@[k as int]));
        k = k + 1;
    }
    assert(path@.take(path@.len() as int) =~= path@);
    let text = match string_from_utf8(bytes) {
        Some(t) => t,
        None => return None,
    };
    let t = chars_of(text.as_str());
    let mut out = String::new();
    push_char(&mut out, '<');
    let mut i: usize = 0;
    while i < t.len()
        invariant
            i <= t@.len(),
            t@ == decode_utf8(path@),
            out@ == seq!['<'] + escape_backslashes(t@.take(i as int)),
            forall|j: int| 0 <= j < i ==> t@[j] != '<' && t@[j] != '>' && t@[j] != '\n' && t@[j] != '\r',
        decreases t@.len() - i,
    {
        let c = t[i];
        if c == '<' || c == '>' || c == '\n' || c == '\r' {
            assert(t@.contains(c));
            return None;
        }
        assert(t@.take(i + 1).drop_last() =~= t@.take(i as int));
        if c == '\\' {
            push_char(&mut out, '\\');
            push_char(&mut out, '\\');
        } else {
            push_char(&mut out, c);
        }
        assert(out@ =~= seq!['<'] + escape_backslashes(t@.take(i + 1)));
        i = i + 1;
    }
    assert(t@.take(t@.len() as int) =~= t@);
    push_char(&mut out, '>');
    assert(!t@.contains('<') && !t@.contains('>') && !t@.contains('\n') && !t@.contains('\r'));
    Some(out)
}

} // verus!
