//! Link following: the barricade between a destination written in an
//! untrusted document and the filesystem or the system's URL opener.
//!
//! The policy is permissive — a relative markdown link, any local file and
//! an `http`/`https` URL are all followable, `../` included — so safety comes
//! from the shape of what is done with a target: a URL reaches the opener as
//! one argument and never through a shell; only `http` and `https` are
//! handed over; a URL carrying a control or a bidi reordering character is
//! refused rather than cleaned; a local target's type and size are settled
//! before a byte of it is read; and the document history is bounded.

use vstd::prelude::*;
use vstd::utf8::*;
use crate::loader::{DocumentSource, LoadError, SourceView, MAX_DOCUMENT_BYTES, base_dir_spec, MIB};
use crate::path::{join, join_path, file_name, file_name_of, lemma_join_single, no_slash, single_name};
use crate::text::{
    trim, trimmed, chars_of, string_of, bytes_of, string_from_utf8, lossy, lossy_text, decimal,
    push_decimal, push_str, push_char, index_of, lemma_index_of, find_char,
};

verus! {

/// The most bytes a file opened by following a link may be: tighter than a
/// document named on the command line, since a link is one keystroke against
/// a destination someone else wrote.
pub const MAX_LINK_FILE_BYTES: u64 = 8 * 1024 * 1024;

/// The longest URL, in bytes, handed to the opener.
pub const MAX_URL_BYTES: usize = 4096;

/// How much of a file's head is sniffed for a NUL before it is taken as
/// text.
pub const BINARY_SNIFF_BYTES: usize = 8192;

/// The deepest the document history may go.
pub const MAX_STACK_DEPTH: usize = 64;

/// The program a URL is opened with, as its single argument, everywhere
/// but macOS.
pub const OPENER_PROGRAM: &'static str = "xdg-open";

/// The program a URL is opened with on macOS.
pub const MACOS_OPENER_PROGRAM: &'static str = "open";

/// What a link destination turned out to be. A path is the bytes the
/// filesystem takes.
#[derive(Debug, Clone, PartialEq, Eq)]
pub enum LinkTarget {
    /// A local path that looks like markdown (`.md` / `.markdown`).
    LocalDoc(Vec<u8>),
    /// Any other local path, opened exactly like a markdown one.
    LocalFile(Vec<u8>),
    /// An `http`/`https` URL for the opener.
    Url(String),
}

/// A [`LinkTarget`], as a value.
pub ghost enum TargetView {
    LocalDoc(Seq<u8>),
    LocalFile(Seq<u8>),
    Url(Seq<char>),
}

impl View for LinkTarget {
    type V = TargetView;

    open spec fn view(&self) -> TargetView {
        match self {
            LinkTarget::LocalDoc(p) => TargetView::LocalDoc(p@),
            LinkTarget::LocalFile(p) => TargetView::LocalFile(p@),
            LinkTarget::Url(u) => TargetView::Url(u@),
        }
    }
}

/// Why a link could not be followed.
#[derive(Debug)]
pub enum LinkError {
    /// An empty destination, or one that is only whitespace.
    Empty,
    /// A `#fragment`-only destination; there are no in-document anchors.
    Fragment,
    /// A URL scheme other than `http` or `https`, lowercased.
    UnsupportedScheme(String),
    /// A URL past [`MAX_URL_BYTES`], carrying a display hazard, or with
    /// nothing after its scheme.
    MalformedUrl,
    /// The path does not exist.
    Missing(Vec<u8>),
    /// The path exists but is not a regular file.
    NotAFile(Vec<u8>),
    /// Bigger than `limit` bytes.
    TooLarge { limit: u64 },
    /// A NUL in the file's head, or bytes that are not UTF-8.
    Binary(Vec<u8>),
    /// The file could not be read; the text is the operating system's reason.
    Io(String),
    /// The document history is already `limit` deep.
    StackTooDeep { limit: usize },
    /// Going back with nothing to go back to.
    AtRoot,
    /// Going back to a document that arrived on stdin, which was read once
    /// to end.
    StreamNotRereadable,
    /// The opener could not be started.
    OpenerFailed(String),
}

/// A [`LinkError`], as a value.
pub ghost enum LinkErrorView {
    Empty,
    Fragment,
    UnsupportedScheme(Seq<char>),
    MalformedUrl,
    Missing(Seq<u8>),
    NotAFile(Seq<u8>),
    TooLarge { limit: u64 },
    Binary(Seq<u8>),
    Io(Seq<char>),
    StackTooDeep { limit: usize },
    AtRoot,
    StreamNotRereadable,
    OpenerFailed(Seq<char>),
}

impl View for LinkError {
    type V = LinkErrorView;

    open spec fn view(&self) -> LinkErrorView {
        match self {
            LinkError::Empty => LinkErrorView::Empty,
            LinkError::Fragment => LinkErrorView::Fragment,
            LinkError::UnsupportedScheme(s) => LinkErrorView::UnsupportedScheme(s@),
            LinkError::MalformedUrl => LinkErrorView::MalformedUrl,
            LinkError::Missing(p) => LinkErrorView::Missing(p@),
            LinkError::NotAFile(p) => LinkErrorView::NotAFile(p@),
            LinkError::TooLarge { limit } => LinkErrorView::TooLarge { limit: *limit },
            LinkError::Binary(p) => LinkErrorView::Binary(p@),
            LinkError::Io(e) => LinkErrorView::Io(e@),
            LinkError::StackTooDeep { limit } => LinkErrorView::StackTooDeep { limit: *limit },
            LinkError::AtRoot => LinkErrorView::AtRoot,
            LinkError::StreamNotRereadable => LinkErrorView::StreamNotRereadable,
            LinkError::OpenerFailed(e) => LinkErrorView::OpenerFailed(e@),
        }
    }
}

/// What [`LinkError::message`] says.
pub open spec fn link_error_text(e: LinkErrorView) -> Seq<char> {
    match e {
        LinkErrorView::Empty => "link has no destination"@,
        LinkErrorView::Fragment => "in-document anchors are not supported"@,
        LinkErrorView::UnsupportedScheme(s) => "refusing to open a `"@ + s + ":` link — http/https only"@,
        LinkErrorView::MalformedUrl => "refusing to open a malformed URL"@,
        LinkErrorView::Missing(p) => "no such file: "@ + lossy_text(p),
        LinkErrorView::NotAFile(p) => "not a regular file: "@ + lossy_text(p),
        LinkErrorView::TooLarge { limit } =>
            "linked file is larger than the "@ + decimal((limit / MIB) as nat) + " MiB stele will open"@,
        LinkErrorView::Binary(p) => "refusing to open binary content: "@ + lossy_text(p),
        LinkErrorView::Io(e) => "could not read linked file: "@ + e,
        LinkErrorView::StackTooDeep { limit } =>
            "link history is "@ + decimal(limit as nat) + " deep — go back before going on"@,
        LinkErrorView::AtRoot => "already at the first document"@,
        LinkErrorView::StreamNotRereadable =>
            "cannot go back to a document read from stdin — a stream is read once to end"@,
        LinkErrorView::OpenerFailed(e) => "could not open the link: "@ + e,
    }
}

impl LinkError {
    /// A load failure on a link's target, as a link refusal: bytes that are
    /// not UTF-8 are binary content for a viewer, and `path` — the one thing
    /// the load no longer knows — names them.
    pub fn from_load(err: LoadError, path: Vec<u8>) -> (e: LinkError)
        ensures
            e@ == match err {
                LoadError::Io(reason) => LinkErrorView::Io(reason@),
                LoadError::InvalidUtf8 => LinkErrorView::Binary(path@),
                LoadError::TooLarge { limit } => LinkErrorView::TooLarge { limit },
            },
    {
        match err {
            LoadError::Io(reason) => LinkError::Io(reason),
            LoadError::InvalidUtf8 => LinkError::Binary(path),
            LoadError::TooLarge { limit } => LinkError::TooLarge { limit },
        }
    }

    /// The refusal as a reader sees it on the status row.
    pub fn message(&self) -> (s: String)
        ensures
            s@ == link_error_text(self@),
    {
        match self {
            LinkError::Empty => String::from_str("link has no destination"),
            LinkError::Fragment => String::from_str("in-document anchors are not supported"),
            LinkError::UnsupportedScheme(scheme) => {
                let mut s = String::from_str("refusing to open a `");
                push_str(&mut s, scheme.as_str());
                push_str(&mut s, ":` link — http/https only");
                s
            },
            LinkError::MalformedUrl => String::from_str("refusing to open a malformed URL"),
            LinkError::Missing(p) => {
                let mut s = String::from_str("no such file: ");
                push_str(&mut s, lossy(p.as_slice()).as_str());
                s
            },
            LinkError::NotAFile(p) => {
                let mut s = String::from_str("not a regular file: ");
                push_str(&mut s, lossy(p.as_slice()).as_str());
                s
            },
            LinkError::TooLarge { limit } => {
                let mut s = String::from_str("linked file is larger than the ");
                push_decimal(&mut s, (*limit / MIB) as u128);
                push_str(&mut s, " MiB stele will open");
                s
            },
            LinkError::Binary(p) => {
                let mut s = String::from_str("refusing to open binary content: ");
                push_str(&mut s, lossy(p.as_slice()).as_str());
                s
            },
            LinkError::Io(e) => {
                let mut s = String::from_str("could not read linked file: ");
                push_str(&mut s, e.as_str());
                s
            },
            LinkError::StackTooDeep { limit } => {
                let mut s = String::from_str("link history is ");
                push_decimal(&mut s, *limit as u128);
                push_str(&mut s, " deep — go back before going on");
                s
            },
            LinkError::AtRoot => String::from_str("already at the first document"),
            LinkError::StreamNotRereadable =>
                String::from_str("cannot go back to a document read from stdin — a stream is read once to end"),
            LinkError::OpenerFailed(e) => {
                let mut s = String::from_str("could not open the link: ");
                push_str(&mut s, e.as_str());
                s
            },
        }
    }
}

// ------------------------------------------------------------ schemes

/// An ASCII letter.
pub open spec fn is_ascii_alpha(c: char) -> bool {
    ('a' <= c && c <= 'z') || ('A' <= c && c <= 'Z')
}

/// A character RFC 3986 allows after a scheme's first letter.
pub open spec fn is_scheme_char(c: char) -> bool {
    is_ascii_alpha(c) || ('0' <= c && c <= '9') || c == '+' || c == '-' || c == '.'
}

/// The scheme of `s` by RFC 3986's grammar — `ALPHA *( ALPHA / DIGIT / "+"
/// / "-" / "." )` before the first `:` — or `None`.
pub open spec fn url_scheme_spec(s: Seq<char>) -> Option<Seq<char>> {
    match index_of(s, ':') {
        Some(k) => if k > 0 && is_ascii_alpha(s[0]) && forall|i: int| 1 <= i < k ==> is_scheme_char(#[trigger] s[i]) {
            Some(s.take(k))
        } else {
            None
        },
        None => None,
    }
}

/// The scheme of `href`, if it has one by RFC 3986's grammar.
pub fn url_scheme(href: &[char]) -> (r: Option<Vec<char>>)
    ensures
        match r {
            Some(s) => url_scheme_spec(href@) == Some(s@) && s@.len() < href@.len(),
            None => url_scheme_spec(href@) is None,
        },
{
    let k = match find_char(href, 0, ':') {
        Some(k) => k,
        None => {
            proof {
                assert(!href@.contains(':'));
            }
            return None;
        },
    };
    proof {
        lemma_index_of(href@, ':', k as int);
    }
    if k == 0 {
        return None;
    }
    let first = href[0];
    if !(('a' <= first && first <= 'z') || ('A' <= first && first <= 'Z')) {
        return None;
    }
    let mut i: usize = 1;
    while i < k
        invariant
            1 <= i <= k,
            k < href@.len(),
            index_of(href@, ':') == Some(k as int),
            is_ascii_alpha(href@[0]),
            forall|j: int| 1 <= j < i ==> is_scheme_char(#[trigger] href@[j]),
        decreases k - i,
    {
        let c = href[i];
        let ok = ('a' <= c && c <= 'z') || ('A' <= c && c <= 'Z') || ('0' <= c && c <= '9') || c == '+'
            || c == '-' || c == '.';
        if !ok {
            assert(!is_scheme_char(href@[i as int]));
            return None;
        }
        i = i + 1;
    }
    let mut out: Vec<char> = Vec::new();
    let mut j: usize = 0;
    while j < k
        invariant
            j <= k,
            k < href@.len(),
            out@ == href@.take(j as int),
        decreases k - j,
    {
        out.push(href[j]);
        assert(href@.take(j + 1) =~= href@.take(j as int).push(href@[j as int]));
        j = j + 1;
    }
    Some(out)
}

/// `c` lowercased if it is an ASCII capital, unchanged otherwise.
pub open spec fn ascii_lower(c: char) -> char {
    if 'A' <= c && c <= 'Z' {
        ((c as u32) + 32) as char
    } else {
        c
    }
}

/// `s` with every ASCII capital lowercased.
pub open spec fn ascii_lowercase(s: Seq<char>) -> Seq<char> {
    Seq::new(s.len(), |i: int| ascii_lower(s[i]))
}

fn lower_char(c: char) -> (r: char)
    ensures
        r == ascii_lower(c),
{
    if 'A' <= c && c <= 'Z' {
        let v = (c as u32) + 32;
        let b = v as u8;
        assert(b as u32 == v);
        b as char
    } else {
        c
    }
}

/// `s` with every ASCII capital lowercased.
pub fn to_ascii_lowercase(s: &[char]) -> (r: Vec<char>)
    ensures
        r@ == ascii_lowercase(s@),
{
    let mut out: Vec<char> = Vec::new();
    let mut i: usize = 0;
    while i < s.len()
        invariant
            i <= s@.len(),
            out@ =~= ascii_lowercase(s@.take(i as int)),
        decreases s@.len() - i,
    {
        out.push(lower_char(s[i]));
        assert(ascii_lowercase(s@.take(i + 1)) =~= ascii_lowercase(s@.take(i as int)).push(ascii_lower(s@[i as int])));
        i = i + 1;
    }
    assert(s@.take(s@.len() as int) =~= s@);
    out
}

/// Whether `scheme` is one the opener may be handed: `http` or `https`,
/// in any case.
pub open spec fn activatable(scheme: Seq<char>) -> bool {
    ascii_lowercase(scheme) == "http"@ || ascii_lowercase(scheme) == "https"@
}

fn chars_are(s: &[char], t: &str) -> (r: bool)
    ensures
        r == (s@ == t@),
{
    let tc = chars_of(t);
    if s.len() != tc.len() {
        return false;
    }
    let mut i: usize = 0;
    while i < s.len()
        invariant
            i <= s@.len(),
            s@.len() == tc@.len(),
            tc@ == t@,
            forall|j: int| 0 <= j < i ==> s@[j] == tc@[j],
        decreases s@.len() - i,
    {
        if s[i] != tc[i] {
            return false;
        }
        i = i + 1;
    }
    assert(s@ =~= tc@);
    true
}

/// Whether `scheme` is `http` or `https`, in any case.
pub fn scheme_is_activatable(scheme: &[char]) -> (r: bool)
    ensures
        r == activatable(scheme@),
{
    let lower = to_ascii_lowercase(scheme);
    chars_are(lower.as_slice(), "http") || chars_are(lower.as_slice(), "https")
}

// ------------------------------------------------------------ hazards

/// A code point that must not reach the opener: a C0 control, DEL, a C1
/// control — which is what a newline, a carriage return, an escape and a
/// NUL all are — or a bidi embedding, override, isolate or deprecated
/// format character, any of which lets a URL read as one destination and
/// open as another. Directional marks are not among them.
pub open spec fn is_display_hazard(c: char) -> bool {
    let v = c as u32;
    v < 0x20 || v == 0x7f || (0x80 <= v && v <= 0x9f) || (0x202a <= v && v <= 0x202e)
        || (0x2066 <= v && v <= 0x206f)
}

fn display_hazard(c: char) -> (r: bool)
    ensures
        r == is_display_hazard(c),
{
    let v = c as u32;
    v < 0x20 || v == 0x7f || (0x80 <= v && v <= 0x9f) || (0x202a <= v && v <= 0x202e)
        || (0x2066 <= v && v <= 0x206f)
}

// ------------------------------------------------------------ paths

/// The value of an ASCII hexadecimal digit.
pub open spec fn hex_value(b: u8) -> Option<u8> {
    if 0x30 <= b && b <= 0x39 {
        Some((b - 0x30) as u8)
    } else if 0x61 <= b && b <= 0x66 {
        Some((b - 0x61 + 10) as u8)
    } else if 0x41 <= b && b <= 0x46 {
        Some((b - 0x41 + 10) as u8)
    } else {
        None
    }
}

/// The byte `%b1b2` stands for: exactly two hexadecimal digits; anything
/// else, a sign included, is no escape.
pub open spec fn escape_value(b1: u8, b2: u8) -> Option<u8> {
    match (hex_value(b1), hex_value(b2)) {
        (Some(h), Some(l)) => Some((h * 16 + l) as u8),
        _ => None,
    }
}

/// `b` from index `i` on with every well-formed `%XX` escape decoded and
/// every decoded NUL dropped; anything malformed is left as it is.
pub open spec fn percent_from(b: Seq<u8>, i: int) -> Seq<u8>
    decreases b.len() - i,
{
    if i < 0 || i >= b.len() {
        Seq::empty()
    } else if b[i] == 0x25 && i + 2 < b.len() && escape_value(b[i + 1], b[i + 2]) is Some {
        let v = escape_value(b[i + 1], b[i + 2])->0;
        (if v == 0 { Seq::empty() } else { seq![v] }) + percent_from(b, i + 3)
    } else {
        seq![b[i]] + percent_from(b, i + 1)
    }
}

/// What [`percent_decoded`] makes of `path`: the decoded bytes as text when
/// they are UTF-8, `path` unchanged when they are not.
pub open spec fn percent_decoded_spec(path: Seq<char>) -> Seq<char> {
    let d = percent_from(encode_utf8(path), 0);
    if valid_utf8(d) { decode_utf8(d) } else { path }
}

fn hex_of(b: u8) -> (r: Option<u8>)
    ensures
        r == hex_value(b),
{
    if 0x30 <= b && b <= 0x39 {
        Some(b - 0x30)
    } else if 0x61 <= b && b <= 0x66 {
        Some(b - 0x61 + 10)
    } else if 0x41 <= b && b <= 0x46 {
        Some(b - 0x41 + 10)
    } else {
        None
    }
}

fn escape_of(b1: u8, b2: u8) -> (r: Option<u8>)
    ensures
        r == escape_value(b1, b2),
{
    match (hex_of(b1), hex_of(b2)) {
        (Some(h), Some(l)) => Some(h * 16 + l),
        _ => None,
    }
}

fn percent_bytes(b: &[u8]) -> (r: Vec<u8>)
    ensures
        r@ == percent_from(b@, 0),
{
    let mut out: Vec<u8> = Vec::new();
    let mut i: usize = 0;
    while i < b.len()
        invariant
            i <= b@.len(),
            out@ + percent_from(b@, i as int) == percent_from(b@, 0),
        decreases b@.len() - i,
    {
        let ghost before = out@;
        let escaped = if b[i] == 0x25 && b.len() - i > 2 {
            escape_of(b[i + 1], b[i + 2])
        } else {
            None
        };
        match escaped {
            Some(v) => {
                if v != 0 {
                    out.push(v);
                }
                assert(out@ + percent_from(b@, i + 3) =~= before + percent_from(b@, i as int));
                i = i + 3;
            },
            None => {
                out.push(b[i]);
                assert(out@ + percent_from(b@, i + 1) =~= before + percent_from(b@, i as int));
                i = i + 1;
            },
        }
    }
    assert(out@ =~= out@ + percent_from(b@, i as int));
    out
}

/// Decodes `%XX` escapes in a link path, leaving anything malformed alone
/// and dropping a decoded NUL, which would truncate the path at the system
/// call.
pub fn percent_decoded(path: &str) -> (s: String)
    ensures
        s@ == percent_decoded_spec(path@),
{
    let bytes = bytes_of(path);
    let decoded = percent_bytes(bytes.as_slice());
    match string_from_utf8(decoded) {
        Some(s) => s,
        None => path.to_owned(),
    }
}

/// The index of the last `0x2e` (`.`) in `n`, if any.
pub open spec fn last_dot(n: Seq<u8>) -> Option<int>
    decreases n.len(),
{
    if n.len() == 0 {
        None
    } else if n.last() == 0x2e {
        Some(n.len() - 1)
    } else {
        last_dot(n.drop_last())
    }
}

/// `Path::extension`: what follows the last `.` of the final name, unless
/// that `.` is the name's first byte.
pub open spec fn extension(p: Seq<u8>) -> Option<Seq<u8>> {
    match file_name(p) {
        Some(n) => match last_dot(n) {
            Some(k) => if k > 0 { Some(n.skip(k + 1)) } else { None },
            None => None,
        },
        None => None,
    }
}

/// A byte lowercased if it is an ASCII capital.
pub open spec fn byte_lower(b: u8) -> u8 {
    if 0x41 <= b && b <= 0x5a { (b + 32) as u8 } else { b }
}

/// Whether `p` names markdown by its extension, in any case.
pub open spec fn is_markdown_spec(p: Seq<u8>) -> bool {
    match extension(p) {
        Some(e) => {
            let l = Seq::new(e.len(), |i: int| byte_lower(e[i]));
            l == seq![0x6du8, 0x64u8] || l == seq![0x6du8, 0x61u8, 0x72u8, 0x6bu8, 0x64u8, 0x6fu8, 0x77u8, 0x6eu8]
        },
        None => false,
    }
}

proof fn lemma_last_dot_bound(n: Seq<u8>)
    ensures
        last_dot(n) matches Some(k) ==> 0 <= k < n.len(),
    decreases n.len(),
{
    if n.len() > 0 {
        lemma_last_dot_bound(n.drop_last());
    }
}

fn last_dot_of(n: &[u8]) -> (r: Option<usize>)
    ensures
        match r {
            Some(k) => last_dot(n@) == Some(k as int),
            None => last_dot(n@) is None,
        },
{
    let mut i: usize = n.len();
    assert(n@.take(n@.len() as int) =~= n@);
    while i > 0
        invariant
            i <= n@.len(),
            last_dot(n@) == last_dot(n@.take(i as int)),
        decreases i,
    {
        assert(n@.take(i as int).drop_last() =~= n@.take(i - 1));
        if n[i - 1] == 0x2e {
            return Some(i - 1);
        }
        i = i - 1;
    }
    None
}

fn lower_equals(e: &[u8], want: &[u8]) -> (r: bool)
    ensures
        r == (Seq::new(e@.len(), |i: int| byte_lower(e@[i])) == want@),
{
    let ghost l = Seq::new(e@.len(), |i: int| byte_lower(e@[i]));
    if e.len() != want.len() {
        return false;
    }
    let mut i: usize = 0;
    while i < e.len()
        invariant
            i <= e@.len(),
            e@.len() == want@.len(),
            l == Seq::new(e@.len(), |k: int| byte_lower(e@[k])),
            forall|k: int| 0 <= k < i ==> l[k] == want@[k],
        decreases e@.len() - i,
    {
        let b = e[i];
        let lb = if 0x41 <= b && b <= 0x5a { b + 32 } else { b };
        if lb != want[i] {
            return false;
        }
        i = i + 1;
    }
    assert(l =~= want@);
    true
}

/// Whether `path`'s extension names markdown, in any case: `README.MD` is.
pub fn is_markdown_path(path: &[u8]) -> (r: bool)
    ensures
        r == is_markdown_spec(path@),
{
    let name = match file_name_of(path) {
        Some(n) => n,
        None => return false,
    };
    let k = match last_dot_of(name.as_slice()) {
        Some(k) => k,
        None => return false,
    };
    if k == 0 {
        return false;
    }
    proof {
        lemma_last_dot_bound(name@);
    }
    let nl = name.len();
    assert(k < nl);
    let (_, tail) = name.as_slice().split_at(k + 1);
    assert(tail@ =~= name@.skip(k + 1));
    let md: [u8; 2] = [0x6d, 0x64];
    let markdown: [u8; 8] = [0x6d, 0x61, 0x72, 0x6b, 0x64, 0x6f, 0x77, 0x6e];
    assert(md@ =~= seq![0x6du8, 0x64u8]);
    assert(markdown@ =~= seq![0x6du8, 0x61u8, 0x72u8, 0x6bu8, 0x64u8, 0x6fu8, 0x77u8, 0x6eu8]);
    lower_equals(tail, md.as_slice()) || lower_equals(tail, markdown.as_slice())
}

/// The `.` [`last_dot`] finds is a `.` with none after it, and where it
/// finds none there is none: of all the dots in a name, the extension is
/// cut at the last.
pub proof fn law_last_dot_is_the_last_dot(n: Seq<u8>)
    ensures
        last_dot(n) matches Some(k) ==> {
            &&& 0 <= k < n.len()
            &&& n[k] == 0x2e
            &&& forall|j: int| k < j < n.len() ==> n[j] != 0x2e
        },
        last_dot(n) is None ==> forall|j: int| 0 <= j < n.len() ==> n[j] != 0x2e,
    decreases n.len(),
{
    if n.len() > 0 {
        law_last_dot_is_the_last_dot(n.drop_last());
        if n.last() != 0x2e {
            assert forall|j: int| 0 <= j < n.len() - 1 implies n[j] == n.drop_last()[j] by {}
        }
    }
}

/// A name `a.e` — `a` non-empty, holding any number of dots, and `e` free of
/// them — has extension `e` wherever it is joined: under any directory, or
/// alone. So it names markdown exactly when `e` is `md` or `markdown` in
/// any case, and a link to it is a document then and another file
/// otherwise.
pub proof fn law_the_extension_is_what_follows_the_last_dot(dir: Seq<u8>, a: Seq<u8>, e: Seq<u8>)
    requires
        a.len() > 0,
        no_slash(a),
        no_slash(e),
        !e.contains(0x2e),
        !(a == seq![0x2eu8] && e.len() == 0),
    ensures
        ({
            let n = a + seq![0x2eu8] + e;
            let p = join(dir, n);
            let l = Seq::new(e.len(), |i: int| byte_lower(e[i]));
            let md = l == seq![0x6du8, 0x64u8] || l == seq![0x6du8, 0x61u8, 0x72u8, 0x6bu8, 0x64u8, 0x6fu8, 0x77u8, 0x6eu8];
            &&& file_name(p) == Some(n)
            &&& extension(p) == Some(e)
            &&& is_markdown_spec(p) == md
            &&& local_target(p) == (if md { TargetView::LocalDoc(p) } else { TargetView::LocalFile(p) })
        }),
{
    let n = a + seq![0x2eu8] + e;
    assert(no_slash(n)) by {
        if n.contains(0x2fu8) {
            let k = choose|k: int| 0 <= k < n.len() && n[k] == 0x2fu8;
            if k < a.len() {
                assert(a[k] == 0x2fu8);
            } else if k > a.len() {
                assert(e[k - a.len() - 1] == 0x2fu8);
            }
        }
    }
    assert(n != seq![0x2eu8]) by {
        if n == seq![0x2eu8] { assert(n.len() == 1); }
    }
    assert(n != seq![0x2eu8, 0x2eu8]) by {
        if n == seq![0x2eu8, 0x2eu8] {
            assert(a.len() == 1 && e.len() == 0);
            assert(a[0] == n[0]);
            assert(a =~= seq![0x2eu8]);
        }
    }
    assert(single_name(n));
    lemma_join_single(dir, n);
    let p = join(dir, n);
    assert(file_name(p) == Some(n));
    law_last_dot_is_the_last_dot(n);
    let k0 = a.len() as int;
    assert(n[k0] == 0x2e);
    match last_dot(n) {
        Some(k) => {
            if k < k0 {
                assert(n[k0] != 0x2e);
            }
            if k > k0 {
                assert(n[k] == e[k - k0 - 1]);
                assert(e.contains(0x2e));
            }
            assert(k == k0);
        },
        None => {
            assert(n[k0] != 0x2e);
        },
    }
    assert(n.skip(k0 + 1) =~= e);
}

/// A name whose only `.` is its first byte — a dotfile such as `.md` — has
/// no extension, so it is never taken for markdown.
pub proof fn law_a_dotfile_has_no_extension(dir: Seq<u8>, e: Seq<u8>)
    requires
        e.len() > 0,
        no_slash(e),
        !e.contains(0x2e),
    ensures
        extension(join(dir, seq![0x2eu8] + e)) is None,
        !is_markdown_spec(join(dir, seq![0x2eu8] + e)),
{
    let n = seq![0x2eu8] + e;
    assert(no_slash(n)) by {
        if n.contains(0x2fu8) {
            let k = choose|k: int| 0 <= k < n.len() && n[k] == 0x2fu8;
            if k > 0 {
                assert(e[k - 1] == 0x2fu8);
            }
        }
    }
    assert(n != seq![0x2eu8]) by {
        if n == seq![0x2eu8] { assert(n.len() == 1); }
    }
    assert(n != seq![0x2eu8, 0x2eu8]) by {
        if n == seq![0x2eu8, 0x2eu8] {
            assert(e[0] == n[1]);
        }
    }
    assert(single_name(n));
    lemma_join_single(dir, n);
    law_last_dot_is_the_last_dot(n);
    match last_dot(n) {
        Some(k) => {
            if k > 0 {
                assert(n[k] == e[k - 1]);
                assert(e.contains(0x2e));
            }
        },
        None => {
            assert(n[0] == 0x2e);
        },
    }
}

// ------------------------------------------------------------ classifying

/// The index of the first `?` or `#` among the first `n` characters.
pub open spec fn first_suffix(s: Seq<char>, n: int) -> Option<int>
    decreases n,
{
    if n <= 0 {
        None
    } else {
        match first_suffix(s, n - 1) {
            Some(k) => Some(k),
            None => if s[n - 1] == '?' || s[n - 1] == '#' { Some(n - 1) } else { None },
        }
    }
}

/// `s` without its `?query` or `#fragment` suffix.
pub open spec fn without_suffix(s: Seq<char>) -> Seq<char> {
    match first_suffix(s, s.len() as int) {
        Some(k) => s.take(k),
        None => s,
    }
}

/// A local target for `bytes`: a document when it names markdown.
pub open spec fn local_target(bytes: Seq<u8>) -> TargetView {
    if is_markdown_spec(bytes) { TargetView::LocalDoc(bytes) } else { TargetView::LocalFile(bytes) }
}

/// What a raw href is, before the filesystem is asked anything.
pub open spec fn classify_spec(href: Seq<char>) -> Result<TargetView, LinkErrorView> {
    let h = trim(href);
    if h.len() == 0 {
        Err(LinkErrorView::Empty)
    } else if h[0] == '#' {
        Err(LinkErrorView::Fragment)
    } else {
        match url_scheme_spec(h) {
            Some(scheme) => if activatable(scheme) {
                Ok(TargetView::Url(h))
            } else {
                Err(LinkErrorView::UnsupportedScheme(ascii_lowercase(scheme)))
            },
            None => {
                let p = without_suffix(h);
                if p.len() == 0 {
                    Err(LinkErrorView::Fragment)
                } else {
                    Ok(local_target(encode_utf8(percent_decoded_spec(p))))
                }
            },
        }
    }
}

proof fn lemma_first_suffix_stays(s: Seq<char>, m: int, n: int)
    requires
        0 <= m <= n,
        first_suffix(s, m) is Some,
    ensures
        first_suffix(s, n) == first_suffix(s, m),
    decreases n - m,
{
    if n > m {
        lemma_first_suffix_stays(s, m, n - 1);
    }
}

fn suffix_start(s: &[char]) -> (r: usize)
    ensures
        r <= s@.len(),
        s@.take(r as int) == without_suffix(s@),
{
    let mut i: usize = 0;
    while i < s.len()
        invariant
            i <= s@.len(),
            first_suffix(s@, i as int) is None,
        decreases s@.len() - i,
    {
        if s[i] == '?' || s[i] == '#' {
            proof {
                assert(first_suffix(s@, i + 1) == Some(i as int));
                lemma_first_suffix_stays(s@, i + 1, s@.len() as int);
            }
            return i;
        }
        i = i + 1;
    }
    assert(s@.take(s@.len() as int) =~= s@);
    i
}

fn local_of(bytes: Vec<u8>) -> (t: LinkTarget)
    ensures
        t@ == local_target(bytes@),
{
    if is_markdown_path(bytes.as_slice()) {
        LinkTarget::LocalDoc(bytes)
    } else {
        LinkTarget::LocalFile(bytes)
    }
}

/// A link's outcome, as values.
pub open spec fn outcome_of(r: Result<LinkTarget, LinkError>) -> Result<TargetView, LinkErrorView> {
    match r {
        Ok(t) => Ok(t@),
        Err(e) => Err(e@),
    }
}

/// The URL-activation half of the barricade: a length ceiling, no display
/// hazard anywhere, a scheme, an allowed one, and something after it.
pub open spec fn validated_url_spec(url: Seq<char>) -> Result<Seq<char>, LinkErrorView> {
    if encode_utf8(url).len() > MAX_URL_BYTES {
        Err(LinkErrorView::MalformedUrl)
    } else if exists|i: int| 0 <= i < url.len() && is_display_hazard(#[trigger] url[i]) {
        Err(LinkErrorView::MalformedUrl)
    } else {
        match url_scheme_spec(url) {
            None => Err(LinkErrorView::MalformedUrl),
            Some(scheme) => if !activatable(scheme) {
                Err(LinkErrorView::UnsupportedScheme(ascii_lowercase(scheme)))
            } else if encode_utf8(url).len() <= scheme.len() + 1 {
                Err(LinkErrorView::MalformedUrl)
            } else {
                Ok(url)
            },
        }
    }
}

/// `url`, if it may be handed to the opener.
pub fn validated_url(url: &str) -> (r: Result<String, LinkError>)
    ensures
        match r {
            Ok(u) => validated_url_spec(url@) == Ok::<Seq<char>, LinkErrorView>(u@),
            Err(e) => validated_url_spec(url@) == Err::<Seq<char>, LinkErrorView>(e@),
        },
{
    let n = url.as_bytes().len();
    if n > MAX_URL_BYTES {
        return Err(LinkError::MalformedUrl);
    }
    let cs = chars_of(url);
    let mut i: usize = 0;
    while i < cs.len()
        invariant
            i <= cs@.len(),
            cs@ == url@,
            forall|k: int| 0 <= k < i ==> !is_display_hazard(#[trigger] cs@[k]),
        decreases cs@.len() - i,
    {
        if display_hazard(cs[i]) {
            return Err(LinkError::MalformedUrl);
        }
        i = i + 1;
    }
    assert(!exists|k: int| 0 <= k < url@.len() && is_display_hazard(#[trigger] url@[k])) by {
        if exists|k: int| 0 <= k < url@.len() && is_display_hazard(#[trigger] url@[k]) {
            let k = choose|k: int| 0 <= k < url@.len() && is_display_hazard(#[trigger] url@[k]);
            assert(!is_display_hazard(cs@[k]));
        }
    }
    let scheme = match url_scheme(cs.as_slice()) {
        Some(s) => s,
        None => return Err(LinkError::MalformedUrl),
    };

    if !scheme_is_activatable(scheme.as_slice()) {
        let lower = to_ascii_lowercase(scheme.as_slice());
        return Err(LinkError::UnsupportedScheme(string_of(lower.as_slice())));
    }
    if n <= scheme.len() + 1 {
        return Err(LinkError::MalformedUrl);
    }
    Ok(url.to_owned())
}

impl LinkTarget {
    /// Classifies a raw href without touching the filesystem: a destination
    /// with an RFC 3986 scheme is a URL answered by the allowlist; anything
    /// else — an absolute path and a `../` traversal included — is a local
    /// path, its `?query` or `#fragment` dropped and its `%XX` escapes
    /// decoded.
    pub fn classify(href: &str) -> (r: Result<LinkTarget, LinkError>)
        ensures
            outcome_of(r) == classify_spec(href@),
    {
        let all = chars_of(href);
        let h = trimmed(all.as_slice());
        if h.len() == 0 {
            return Err(LinkError::Empty);
        }
        if h[0] == '#' {
            return Err(LinkError::Fragment);
        }
        if let Some(scheme) = url_scheme(h.as_slice()) {
            if scheme_is_activatable(scheme.as_slice()) {
                return Ok(LinkTarget::Url(string_of(h.as_slice())));
            }
            let lower = to_ascii_lowercase(scheme.as_slice());
            return Err(LinkError::UnsupportedScheme(string_of(lower.as_slice())));
        }
        let end = suffix_start(h.as_slice());
        if end == 0 {
            return Err(LinkError::Fragment);
        }
        let (before, _) = h.as_slice().split_at(end);
        let path = string_of(before);
        let decoded = percent_decoded(path.as_str());
        let bytes = bytes_of(decoded.as_str());
        Ok(local_of(bytes))
    }

    /// This target made ready to act on against the open document's
    /// directory `base`: a URL re-validated, a relative path joined onto
    /// `base` (an absolute one stands as written). No byte of the target is
    /// read, and no filesystem question asked; canonicalising and settling
    /// the file's type are [`admit_file`]'s inputs.
    pub fn resolve(&self, base: &[u8]) -> (r: Result<LinkTarget, LinkError>)
        ensures
            outcome_of(r) == resolve_spec(self@, base@),
    {
        match self {
            LinkTarget::Url(url) => match validated_url(url.as_str()) {
                Ok(u) => Ok(LinkTarget::Url(u)),
                Err(e) => Err(e),
            },
            LinkTarget::LocalDoc(p) => Ok(LinkTarget::LocalDoc(join_path(base, p.as_slice()))),
            LinkTarget::LocalFile(p) => Ok(LinkTarget::LocalFile(join_path(base, p.as_slice()))),
        }
    }
}

/// What [`LinkTarget::resolve`] makes of `t` against `base`.
pub open spec fn resolve_spec(t: TargetView, base: Seq<u8>) -> Result<TargetView, LinkErrorView> {
    match t {
        TargetView::Url(u) => match validated_url_spec(u) {
            Ok(v) => Ok(TargetView::Url(v)),
            Err(e) => Err(e),
        },
        TargetView::LocalDoc(p) => Ok(TargetView::LocalDoc(join(base, p))),
        TargetView::LocalFile(p) => Ok(TargetView::LocalFile(join(base, p))),
    }
}

// ------------------------------------------------------------ local files

/// What `stat` said about a canonicalised target.
#[derive(Debug, Clone, Copy, PartialEq, Eq, Structural)]
pub struct FileFacts {
    /// It is a regular file — not a directory, FIFO, socket or device.
    pub is_file: bool,
    /// Its size in bytes.
    pub len: u64,
}

/// Whether a canonicalised target may be read: a regular file within
/// `limit` bytes.
pub open spec fn admit_spec(path: Seq<u8>, facts: FileFacts, limit: u64) -> Result<Seq<u8>, LinkErrorView> {
    if !facts.is_file {
        Err(LinkErrorView::NotAFile(path))
    } else if facts.len > limit {
        Err(LinkErrorView::TooLarge { limit })
    } else {
        Ok(path)
    }
}

/// Admits the canonicalised target `path`, given what `stat` said of it —
/// the type check ahead of every read, since the read is what cannot be
/// taken back: opening a FIFO with no writer blocks, and `/dev/zero` never
/// ends.
pub fn admit_file(path: Vec<u8>, facts: FileFacts, limit: u64) -> (r: Result<Vec<u8>, LinkError>)
    ensures
        match r {
            Ok(p) => admit_spec(path@, facts, limit) == Ok::<Seq<u8>, LinkErrorView>(p@),
            Err(e) => admit_spec(path@, facts, limit) == Err::<Seq<u8>, LinkErrorView>(e@),
        },
{
    if !facts.is_file {
        Err(LinkError::NotAFile(path))
    } else if facts.len > limit {
        Err(LinkError::TooLarge { limit })
    } else {
        Ok(path)
    }
}

/// What a resolved target becomes once the filesystem has been asked: a URL
/// stays as it is; a local one whose path would not canonicalize
/// (`canonical` is `None`) is missing under the path it was joined to, and
/// otherwise its canonical path is admitted by what `stat` said of it
/// (`facts`) and kept as the same kind of target.
pub open spec fn located_spec(t: TargetView, canonical: Option<Seq<u8>>, facts: FileFacts, limit: u64) -> Result<TargetView, LinkErrorView> {
    match t {
        TargetView::Url(u) => Ok(TargetView::Url(u)),
        TargetView::LocalDoc(joined) => match canonical {
            None => Err(LinkErrorView::Missing(joined)),
            Some(c) => match admit_spec(c, facts, limit) {
                Ok(p) => Ok(TargetView::LocalDoc(p)),
                Err(e) => Err(e),
            },
        },
        TargetView::LocalFile(joined) => match canonical {
            None => Err(LinkErrorView::Missing(joined)),
            Some(c) => match admit_spec(c, facts, limit) {
                Ok(p) => Ok(TargetView::LocalFile(p)),
                Err(e) => Err(e),
            },
        },
    }
}

impl LinkTarget {
    /// The resolved target, located on disk: `canonical` is the canonical
    /// path of a local target, or `None` when it would not canonicalize, and
    /// `facts` what `stat` said of that path. Nothing is opened or read.
    pub fn locate(self, canonical: Option<Vec<u8>>, facts: FileFacts, limit: u64) -> (r: Result<LinkTarget, LinkError>)
        ensures
            outcome_of(r) == located_spec(self@, match canonical {
                Some(c) => Some(c@),
                None => None,
            }, facts, limit),
    {
        match self {
            LinkTarget::Url(u) => Ok(LinkTarget::Url(u)),
            LinkTarget::LocalDoc(joined) => match canonical {
                None => Err(LinkError::Missing(joined)),
                Some(c) => match admit_file(c, facts, limit) {
                    Ok(p) => Ok(LinkTarget::LocalDoc(p)),
                    Err(e) => Err(e),
                },
            },
            LinkTarget::LocalFile(joined) => match canonical {
                None => Err(LinkError::Missing(joined)),
                Some(c) => match admit_file(c, facts, limit) {
                    Ok(p) => Ok(LinkTarget::LocalFile(p)),
                    Err(e) => Err(e),
                },
            },
        }
    }
}

/// Whether `bytes` look binary: a NUL anywhere in the first
/// [`BINARY_SNIFF_BYTES`].
pub open spec fn is_binary_spec(bytes: Seq<u8>) -> bool {
    exists|i: int| 0 <= i < bytes.len() && i < BINARY_SNIFF_BYTES && bytes[i] == 0
}

/// Whether `bytes` look like binary content: a NUL in the bounded head.
/// A NUL is valid UTF-8, so decoding alone would not catch it.
pub fn is_binary(bytes: &[u8]) -> (r: bool)
    ensures
        r == is_binary_spec(bytes@),
{
    let mut i: usize = 0;
    while i < bytes.len() && i < BINARY_SNIFF_BYTES
        invariant
            i <= bytes@.len(),
            i <= BINARY_SNIFF_BYTES,
            forall|k: int| 0 <= k < i ==> bytes@[k] != 0,
        decreases bytes@.len() - i,
    {
        if bytes[i] == 0 {
            return true;
        }
        i = i + 1;
    }
    false
}

/// What the read of an admitted file at `path` yields as text: refused as
/// binary when its head holds a NUL or it is not UTF-8.
pub open spec fn admit_text_spec(path: Seq<u8>, bytes: Seq<u8>) -> Result<Seq<char>, LinkErrorView> {
    if is_binary_spec(bytes) || !valid_utf8(bytes) {
        Err(LinkErrorView::Binary(path))
    } else {
        Ok(decode_utf8(bytes))
    }
}

/// The text of an admitted file at `path`, from the bytes a bounded read
/// produced.
pub fn admit_text(path: Vec<u8>, bytes: Vec<u8>) -> (r: Result<String, LinkError>)
    ensures
        match r {
            Ok(t) => admit_text_spec(path@, bytes@) == Ok::<Seq<char>, LinkErrorView>(t@),
            Err(e) => admit_text_spec(path@, bytes@) == Err::<Seq<char>, LinkErrorView>(e@),
        },
{
    if is_binary(bytes.as_slice()) {
        return Err(LinkError::Binary(path));
    }
    match string_from_utf8(bytes) {
        Some(t) => Ok(t),
        None => Err(LinkError::Binary(path)),
    }
}

// ------------------------------------------------------------ the opener

/// The program that opens a URL on this platform: `open` on macOS,
/// `xdg-open` anywhere else.
pub fn opener_program(macos: bool) -> (p: &'static str)
    ensures
        p@ == (if macos { MACOS_OPENER_PROGRAM@ } else { OPENER_PROGRAM@ }),
{
    if macos {
        MACOS_OPENER_PROGRAM
    } else {
        OPENER_PROGRAM
    }
}

/// The program and argument vector `url` is opened with on this platform:
/// one element, the URL itself, and no shell anywhere.
pub fn opener_argv(url: &str, macos: bool) -> (r: (&'static str, [String; 1]))
    ensures
        r.0@ == (if macos { MACOS_OPENER_PROGRAM@ } else { OPENER_PROGRAM@ }),
        r.1@.len() == 1,
        r.1@[0]@ == url@,
{
    let arg = url.to_owned();
    (opener_program(macos), [arg])
}

/// The seam to the system's URL handler; implementations live where the
/// process is spawned.
pub trait UrlOpener {
    /// Hands `url`, already validated, to the system.
    fn open(&mut self, url: &str) -> Result<(), LinkError>;
}

// ------------------------------------------------------------ history

/// One document the reader came from, and where they were in it.
#[derive(Debug, Clone, PartialEq, Eq)]
pub struct StackedDocument {
    pub source: DocumentSource,
    /// The scroll offset to restore on the way back.
    pub scroll: usize,
    /// The size ceiling this document was admitted under, so the way back
    /// is judged by the rule the way in was.
    limit: u64,
}

/// One history entry, as a value.
pub ghost struct EntryView {
    pub source: SourceView,
    pub scroll: usize,
    pub limit: u64,
}

impl View for StackedDocument {
    type V = EntryView;

    closed spec fn view(&self) -> EntryView {
        EntryView { source: self.source@, scroll: self.scroll, limit: self.limit }
    }
}

impl StackedDocument {
    /// The size ceiling this document was admitted under.
    pub fn limit(&self) -> (l: u64)
        ensures
            l == self@.limit,
    {
        self.limit
    }

    /// The document this entry returns to.
    pub fn source(&self) -> (s: &DocumentSource)
        ensures
            s@ == self@.source,
    {
        &self.source
    }

    /// Where the reader was: the document and its scroll offset.
    pub fn into_place(self) -> (r: (DocumentSource, usize))
        ensures
            r.0@ == self@.source,
            r.1 == self@.scroll,
    {
        (self.source, self.scroll)
    }
}

/// The reader's link history: following pushes, going back pops. Bounded
/// at [`MAX_STACK_DEPTH`] by refusing the push, never by dropping the
/// oldest entry.
#[derive(Debug)]
pub struct DocumentStack {
    entries: Vec<StackedDocument>,
}

impl DocumentStack {
    /// The history never holds more than [`MAX_STACK_DEPTH`] entries.
    #[verifier::type_invariant]
    spec fn within_ceiling(&self) -> bool {
        self.entries@.len() <= MAX_STACK_DEPTH
    }
}

impl View for DocumentStack {
    type V = Seq<EntryView>;

    closed spec fn view(&self) -> Seq<EntryView> {
        Seq::new(self.entries@.len(), |i: int| self.entries@[i]@)
    }
}

/// The ceiling an entry pushed onto a history of `depth` entries is worth:
/// the first is the document named on the command line, every later one was
/// reached by a link.
pub open spec fn limit_at(depth: nat) -> u64 {
    if depth == 0 { MAX_DOCUMENT_BYTES } else { MAX_LINK_FILE_BYTES }
}

impl DocumentStack {
    /// An empty history.
    pub fn new() -> (s: DocumentStack)
        ensures
            s@ == Seq::<EntryView>::empty(),
    {
        DocumentStack { entries: Vec::new() }
    }

    /// Records `source` at `scroll` as the document to return to, unless the
    /// history is already [`MAX_STACK_DEPTH`] deep.
    pub fn push(&mut self, source: DocumentSource, scroll: usize) -> (r: Result<(), LinkError>)
        ensures
            old(self)@.len() >= MAX_STACK_DEPTH ==> final(self)@ == old(self)@
                && (r matches Err(e) && e@ == (LinkErrorView::StackTooDeep { limit: MAX_STACK_DEPTH })),
            old(self)@.len() < MAX_STACK_DEPTH ==> r is Ok && final(self)@ == pushed(old(self)@, source@, scroll),
    {
        if self.entries.len() >= MAX_STACK_DEPTH {
            return Err(LinkError::StackTooDeep { limit: MAX_STACK_DEPTH });
        }
        let limit = if self.entries.len() == 0 { MAX_DOCUMENT_BYTES } else { MAX_LINK_FILE_BYTES };
        let ghost before = self@;
        let ghost sv = source@;
        let mut entries: Vec<StackedDocument> = Vec::new();
        std::mem::swap(&mut entries, &mut self.entries);
        entries.push(StackedDocument { source, scroll, limit });
        self.entries = entries;
        assert(self@ =~= before.push(EntryView { source: sv, scroll, limit: limit_at(before.len()) }));
        Ok(())
    }

    /// The most recent entry, or `None` at the root document.
    pub fn pop(&mut self) -> (r: Option<StackedDocument>)
        ensures
            old(self)@.len() == 0 ==> r is None && final(self)@ == old(self)@,
            old(self)@.len() > 0 ==> (r matches Some(e) && final(self)@ == old(self)@.drop_last()
                && old(self)@.last() == e@),
    {
        proof {
            use_type_invariant(&*self);
        }
        let ghost before = self@;
        let mut entries: Vec<StackedDocument> = Vec::new();
        std::mem::swap(&mut entries, &mut self.entries);
        let r = entries.pop();
        self.entries = entries;
        assert(self@ =~= if before.len() == 0 { before } else { before.drop_last() });
        r
    }

    /// Puts back an entry taken off by a going-back whose reload failed,
    /// exactly as it was — its ceiling included.
    pub fn restore(&mut self, entry: StackedDocument)
        requires
            old(self)@.len() < MAX_STACK_DEPTH,
        ensures
            final(self)@ == old(self)@.push(entry@),
    {
        let ghost before = self@;
        let ghost ev = entry@;
        let mut entries: Vec<StackedDocument> = Vec::new();
        std::mem::swap(&mut entries, &mut self.entries);
        entries.push(entry);
        self.entries = entries;
        assert(self@ =~= before.push(ev));
    }

    /// How many documents the reader can go back through: never more than
    /// [`MAX_STACK_DEPTH`], whatever was pushed, popped or put back.
    pub fn depth(&self) -> (n: usize)
        ensures
            n == self@.len(),
            n <= MAX_STACK_DEPTH,
    {
        proof {
            use_type_invariant(self);
        }
        self.entries.len()
    }

    /// Whether the reader is at the root document.
    pub fn is_empty(&self) -> (r: bool)
        ensures
            r == (self@.len() == 0),
    {
        self.entries.len() == 0
    }
}

/// The history a successful `push` of `source` at `scroll` leaves behind.
pub open spec fn pushed(history: Seq<EntryView>, source: SourceView, scroll: usize) -> Seq<EntryView> {
    history.push(EntryView { source, scroll, limit: limit_at(history.len()) })
}

/// Going back right after following a link returns the reader to the
/// document and scroll offset they left, under the ceiling its depth earned,
/// and leaves the history exactly as it was before the link was followed.
pub proof fn law_pop_returns_the_last_push(history: Seq<EntryView>, source: SourceView, scroll: usize)
    requires
        history.len() < MAX_STACK_DEPTH,
    ensures
        pushed(history, source, scroll).len() > 0,
        pushed(history, source, scroll).drop_last() == history,
        pushed(history, source, scroll).last() == (EntryView { source, scroll, limit: limit_at(history.len()) }),
{
    assert(pushed(history, source, scroll).drop_last() =~= history);
}

/// The history after `items` — each a source and a scroll offset — are
/// pushed onto `history` in order.
pub open spec fn pushed_all(history: Seq<EntryView>, items: Seq<(SourceView, usize)>) -> Seq<EntryView>
    decreases items.len(),
{
    if items.len() == 0 {
        history
    } else {
        pushed(pushed_all(history, items.drop_last()), items.last().0, items.last().1)
    }
}

proof fn lemma_pushed_all_len(history: Seq<EntryView>, items: Seq<(SourceView, usize)>)
    ensures
        pushed_all(history, items).len() == history.len() + items.len(),
    decreases items.len(),
{
    if items.len() > 0 {
        lemma_pushed_all_len(history, items.drop_last());
    }
}

/// A run of pushes comes back off the history last first. Pushing `items`
/// in order onto `history`, within the ceiling, every push has room; after
/// the first `j` of them the top entry is the `j`th, under the ceiling its
/// depth earned, and popping it leaves the history the first `j - 1` made.
/// So as many pops as pushes return every item in reverse order and leave
/// `history` as it was.
pub proof fn law_pops_return_pushes_in_reverse(history: Seq<EntryView>, items: Seq<(SourceView, usize)>)
    requires
        history.len() + items.len() <= MAX_STACK_DEPTH,
    ensures
        pushed_all(history, items.take(0)) == history,
        forall|j: int| 0 <= j < items.len() ==> (#[trigger] pushed_all(history, items.take(j))).len() < MAX_STACK_DEPTH,
        forall|j: int| 0 < j <= items.len() ==> {
            &&& (#[trigger] pushed_all(history, items.take(j))).last()
                == (EntryView { source: items[j - 1].0, scroll: items[j - 1].1, limit: limit_at((history.len() + j - 1) as nat) })
            &&& pushed_all(history, items.take(j)).drop_last() == pushed_all(history, items.take(j - 1))
        },
{
    assert(items.take(0) =~= Seq::<(SourceView, usize)>::empty());
    assert forall|j: int| 0 <= j < items.len() implies (#[trigger] pushed_all(history, items.take(j))).len() < MAX_STACK_DEPTH by {
        lemma_pushed_all_len(history, items.take(j));
    }
    assert forall|j: int| 0 < j <= items.len() implies {
        &&& (#[trigger] pushed_all(history, items.take(j))).last()
            == (EntryView { source: items[j - 1].0, scroll: items[j - 1].1, limit: limit_at((history.len() + j - 1) as nat) })
        &&& pushed_all(history, items.take(j)).drop_last() == pushed_all(history, items.take(j - 1))
    } by {
        let t = items.take(j);
        assert(t.drop_last() =~= items.take(j - 1));
        assert(t.last() == items[j - 1]);
        lemma_pushed_all_len(history, items.take(j - 1));
        let before = pushed_all(history, items.take(j - 1));
        assert(pushed(before, items[j - 1].0, items[j - 1].1).drop_last() =~= before);
    }
}

/// Link activation and the document history. Owns the history and decides
/// what may reach the opener; what a document's bytes are, reading them, and
/// the opener itself are the caller's.
pub struct Navigator {
    stack: DocumentStack,
}

impl Navigator {
    pub closed spec fn history(&self) -> Seq<EntryView> {
        self.stack@
    }

    /// A navigator at the root document.
    pub fn new() -> (n: Navigator)
        ensures
            n.history() == Seq::<EntryView>::empty(),
    {
        Navigator { stack: DocumentStack::new() }
    }

    /// How deep the history is.
    pub fn depth(&self) -> (n: usize)
        ensures
            n == self.history().len(),
            n <= MAX_STACK_DEPTH,
    {
        self.stack.depth()
    }

    /// Where `href`, written in the document `current`, leads: classified,
    /// then resolved against that document's directory. Nothing is pushed
    /// and nothing opened.
    pub fn target(&self, href: &str, current: &DocumentSource) -> (r: Result<LinkTarget, LinkError>)
        ensures
            outcome_of(r) == (match classify_spec(href@) {
                Ok(t) => resolve_spec(t, base_dir_spec(current@)),
                Err(e) => Err(e),
            }),
    {
        let base = current.base_dir();
        match LinkTarget::classify(href) {
            Ok(t) => t.resolve(base.as_slice()),
            Err(e) => Err(e),
        }
    }

    /// The URL to hand to the opener for `url`: `url` itself once it has
    /// passed [`validated_url`], and the reason it is refused otherwise. What
    /// comes back `Ok` is the one string the opener may be given; the history
    /// is untouched.
    pub fn hand_off(&self, url: &str) -> (r: Result<String, LinkError>)
        ensures
            match validated_url_spec(url@) {
                Ok(u) => r matches Ok(s) && s@ == u,
                Err(e) => r matches Err(x) && x@ == e,
            },
    {
        validated_url(url)
    }

    /// Refuses, before any read, a local target the history has no room for.
    pub fn room(&self) -> (r: Result<(), LinkError>)
        ensures
            self.history().len() < MAX_STACK_DEPTH <==> r is Ok,
            r matches Err(e) ==> e@ == (LinkErrorView::StackTooDeep { limit: MAX_STACK_DEPTH }),
    {
        if self.stack.depth() >= MAX_STACK_DEPTH {
            Err(LinkError::StackTooDeep { limit: MAX_STACK_DEPTH })
        } else {
            Ok(())
        }
    }

    /// Records `current` at `scroll` once the target it led to has loaded:
    /// nothing is pushed for a link that failed.
    pub fn arrived(&mut self, current: DocumentSource, scroll: usize) -> (r: Result<(), LinkError>)
        ensures
            old(self).history().len() >= MAX_STACK_DEPTH ==> final(self).history() == old(self).history()
                && (r matches Err(e) && e@ == (LinkErrorView::StackTooDeep { limit: MAX_STACK_DEPTH })),
            old(self).history().len() < MAX_STACK_DEPTH ==> r is Ok && final(self).history() == old(self).history().push(EntryView {
                source: current@,
                scroll,
                limit: limit_at(old(self).history().len()),
            }),
    {
        self.stack.push(current, scroll)
    }

    /// Going back: the document one level up, taken off the history, or
    /// [`LinkError::AtRoot`].
    pub fn leave(&mut self) -> (r: Result<StackedDocument, LinkError>)
        ensures
            old(self).history().len() == 0 ==> final(self).history() == old(self).history()
                && (r matches Err(e) && e@ == LinkErrorView::AtRoot),
            old(self).history().len() > 0 ==> (r matches Ok(e) && final(self).history() == old(self).history().drop_last()
                && old(self).history().last() == e@),
    {
        match self.stack.pop() {
            Some(e) => Ok(e),
            None => Err(LinkError::AtRoot),
        }
    }

    /// Puts back an entry whose reload failed, so going back can be tried
    /// again.
    pub fn restore(&mut self, entry: StackedDocument)
        requires
            old(self).history().len() < MAX_STACK_DEPTH,
        ensures
            final(self).history() == old(self).history().push(entry@),
    {
        self.stack.restore(entry)
    }

    /// A going-back to `source` that cannot be re-read: a stream was read
    /// once to end.
    pub fn rereadable(source: &DocumentSource) -> (r: Result<(), LinkError>)
        ensures
            source@ is Stdin <==> r is Err,
            r matches Err(e) ==> e@ == LinkErrorView::StreamNotRereadable,
    {
        match source {
            DocumentSource::Path(_) => Ok(()),
            DocumentSource::Stdin => Err(LinkError::StreamNotRereadable),
        }
    }
}


// ------------------------------------------------------------ laws

/// A URL the barricade lets through is exactly the URL the document wrote,
/// within [`MAX_URL_BYTES`], free of every display hazard, and of an
/// `http`/`https` scheme with something after it.
pub proof fn law_an_accepted_url_is_safe_to_open(url: Seq<char>)
    requires
        validated_url_spec(url) is Ok,
    ensures
        validated_url_spec(url) == Ok::<Seq<char>, LinkErrorView>(url),
        encode_utf8(url).len() <= MAX_URL_BYTES,
        forall|i: int| 0 <= i < url.len() ==> !is_display_hazard(#[trigger] url[i]),
        url_scheme_spec(url) matches Some(scheme) && activatable(scheme),
{
}

/// A destination classified as a URL carries an `http`/`https` scheme:
/// every other scheme is refused at classification.
pub proof fn law_only_http_and_https_classify_as_urls(href: Seq<char>)
    requires
        classify_spec(href) matches Ok(TargetView::Url(_)),
    ensures
        classify_spec(href) matches Ok(TargetView::Url(u)) && url_scheme_spec(u) matches Some(scheme)
            && activatable(scheme),
{
}

/// Only an accepted `http`/`https` URL is ever handed to the opener, and it
/// is the href as written, trimmed and not unescaped: a destination that
/// resolves to a URL resolves to exactly that string, which [`Navigator::hand_off`]
/// passes on unchanged — within the length ceiling, free of every display
/// hazard, with an `http`/`https` scheme. A local path never resolves to a
/// URL, so it never reaches the opener.
pub proof fn law_only_an_accepted_url_reaches_the_opener(href: Seq<char>, base: Seq<u8>)
    ensures
        match classify_spec(href) {
            Ok(t) => match resolve_spec(t, base) {
                Ok(TargetView::Url(u)) => {
                    &&& t == TargetView::Url(trim(href))
                    &&& u == trim(href)
                    &&& validated_url_spec(u) == Ok::<Seq<char>, LinkErrorView>(u)
                    &&& url_scheme_spec(u) matches Some(scheme) && activatable(scheme)
                    &&& encode_utf8(u).len() <= MAX_URL_BYTES
                    &&& forall|i: int| 0 <= i < u.len() ==> !is_display_hazard(#[trigger] u[i])
                },
                _ => true,
            },
            Err(_) => true,
        },
{
    if let Ok(t) = classify_spec(href) {
        if let TargetView::Url(h) = t {
            if validated_url_spec(h) is Ok {
                law_an_accepted_url_is_safe_to_open(h);
            }
        }
    }
}

/// A local link is located on disk by one rule: joined onto the document's
/// directory, it is missing under that joined path when it does not
/// canonicalize; otherwise its canonical path is refused when it is not a
/// regular file or is bigger than `limit`, and else kept as the same kind of
/// target. Nothing decides it but what the look-up found.
pub proof fn law_a_local_target_is_missing_refused_or_kept(t: TargetView, base: Seq<u8>, canonical: Option<Seq<u8>>, facts: FileFacts, limit: u64)
    requires
        !(t is Url),
    ensures
        ({
            let joined = match t {
                TargetView::LocalDoc(p) => join(base, p),
                TargetView::LocalFile(p) => join(base, p),
                TargetView::Url(_) => Seq::empty(),
            };
            let resolved = resolve_spec(t, base)->Ok_0;
            let outcome = located_spec(resolved, canonical, facts, limit);
            &&& resolve_spec(t, base) is Ok
            &&& canonical is None ==> outcome == Err::<TargetView, LinkErrorView>(LinkErrorView::Missing(joined))
            &&& canonical matches Some(c) ==> outcome == (if !facts.is_file {
                Err::<TargetView, LinkErrorView>(LinkErrorView::NotAFile(c))
            } else if facts.len > limit {
                Err(LinkErrorView::TooLarge { limit })
            } else if t is LocalDoc {
                Ok(TargetView::LocalDoc(c))
            } else {
                Ok(TargetView::LocalFile(c))
            })
        }),
{
}

/// A follow changes the history at one point only — the arrival, once the
/// target has loaded — and every refusal before it leaves the history as
/// it was: at the ceiling there is no room, and below it the arrival pushes
/// exactly where the reader was, under the ceiling its depth earned, so
/// going back right after returns there and leaves the history as before.
pub proof fn law_a_follow_pushes_only_where_the_reader_was(history: Seq<EntryView>, current: SourceView, scroll: usize)
    requires
        history.len() <= MAX_STACK_DEPTH,
    ensures
        history.len() < MAX_STACK_DEPTH ==> {
            &&& pushed(history, current, scroll).len() == history.len() + 1
            &&& pushed(history, current, scroll).drop_last() == history
            &&& pushed(history, current, scroll).last() == (EntryView { source: current, scroll, limit: limit_at(history.len()) })
        },
{
    assert(pushed(history, current, scroll).drop_last() =~= history);
}

/// A going-back whose reopen fails keeps its entry for another try: taking
/// the top entry off leaves room to put it back, and putting it back
/// restores the history exactly — its ceiling included. The first entry
/// reopens under the command line's ceiling, every later one under the
/// link ceiling.
pub proof fn law_a_failed_back_keeps_its_entry(history: Seq<EntryView>)
    requires
        0 < history.len() <= MAX_STACK_DEPTH,
    ensures
        history.drop_last().len() < MAX_STACK_DEPTH,
        history.drop_last().push(history.last()) == history,
        limit_at(0) == MAX_DOCUMENT_BYTES,
        forall|d: nat| d > 0 ==> #[trigger] limit_at(d) == MAX_LINK_FILE_BYTES,
{
    assert(history.drop_last().push(history.last()) =~= history);
}

/// Decoding a path's escapes never puts a NUL into it: a `%00` is dropped.
pub proof fn law_decoding_never_adds_a_nul(b: Seq<u8>, i: int)
    requires
        forall|k: int| 0 <= k < b.len() ==> b[k] != 0,
    ensures
        forall|k: int| 0 <= k < percent_from(b, i).len() ==> percent_from(b, i)[k] != 0,
    decreases b.len() - i,
{
    if 0 <= i < b.len() {
        if b[i] == 0x25 && i + 2 < b.len() && escape_value(b[i + 1], b[i + 2]) is Some {
            law_decoding_never_adds_a_nul(b, i + 3);
            let v = escape_value(b[i + 1], b[i + 2])->0;
            let head: Seq<u8> = if v == 0 { Seq::empty() } else { seq![v] };
            assert forall|k: int| 0 <= k < percent_from(b, i).len() implies percent_from(b, i)[k] != 0 by {
                if k < head.len() {
                    assert(percent_from(b, i)[k] == head[k]);
                } else {
                    assert(percent_from(b, i)[k] == percent_from(b, i + 3)[k - head.len()]);
                }
            }
        } else {
            law_decoding_never_adds_a_nul(b, i + 1);
            assert forall|k: int| 0 <= k < percent_from(b, i).len() implies percent_from(b, i)[k] != 0 by {
                if k > 0 {
                    assert(percent_from(b, i)[k] == percent_from(b, i + 1)[k - 1]);
                }
            }
        }
    }
}

} // verus!
