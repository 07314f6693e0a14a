//! Where a document's bytes come from, and the ceiling they are read under.
//!
//! Reading is the caller's; what is decided about the bytes once read — and
//! what a source is called, and where its relative paths resolve — is here.

use vstd::prelude::*;
use crate::path::{parent_comps, parent_of, render};
use crate::text::{bytes_of, chars_of, str_eq, decimal, lossy, lossy_text, push_decimal, push_str, string_from_utf8};
use vstd::utf8::*;

verus! {

/// The most bytes a document may be, for a file and for stdin alike.
pub const MAX_DOCUMENT_BYTES: u64 = 64 * 1024 * 1024;

/// What the status row calls a document that arrived on a pipe.
pub const STDIN_DISPLAY_NAME: &'static str = "(stdin)";

/// Why loading failed.
#[derive(Debug)]
pub enum LoadError {
    /// The read itself failed; the text is the operating system's reason.
    Io(String),
    /// The bytes are not UTF-8.
    InvalidUtf8,
    /// The source is bigger than `limit` bytes.
    TooLarge { limit: u64 },
}

/// A mebibyte.
pub const MIB: u64 = 1024 * 1024;

/// What [`LoadError::message`] says.
pub open spec fn load_error_text(e: LoadError) -> Seq<char> {
    match e {
        LoadError::Io(reason) => "could not read file: "@ + reason@,
        LoadError::InvalidUtf8 => "file is not valid UTF-8"@,
        LoadError::TooLarge { limit } =>
            "document is larger than the "@ + decimal((limit / MIB) as nat) + " MiB stele will read"@,
    }
}

impl LoadError {
    /// The failure as a reader should see it: prose, never a debug dump.
    pub fn message(&self) -> (s: String)
        ensures
            s@ == load_error_text(*self),
    {
        match self {
            LoadError::Io(reason) => {
                let mut s = String::from_str("could not read file: ");
                push_str(&mut s, reason.as_str());
                s
            },
            LoadError::InvalidUtf8 => String::from_str("file is not valid UTF-8"),
            LoadError::TooLarge { limit } => {
                let mut s = String::from_str("document is larger than the ");
                push_decimal(&mut s, (*limit / MIB) as u128);
                push_str(&mut s, " MiB stele will read");
                s
            },
        }
    }
}

/// How many bytes a bounded read may pull: one past `limit`, so an
/// oversized source costs one extra byte rather than all of it.
pub fn read_budget(limit: u64) -> (n: u64)
    ensures
        n == if limit == u64::MAX { limit as int } else { limit + 1 },
{
    if limit == u64::MAX {
        limit
    } else {
        limit + 1
    }
}

/// Judges what a bounded read produced: more than `limit` bytes is refused,
/// anything else comes back unchanged.
pub fn read_bounded(bytes: Vec<u8>, limit: u64) -> (r: Result<Vec<u8>, LoadError>)
    ensures
        match r {
            Ok(b) => bytes@.len() <= limit && b@ == bytes@,
            Err(e) => bytes@.len() > limit && e == LoadError::TooLarge { limit },
        },
{
    if bytes.len() as u64 > limit {
        Err(LoadError::TooLarge { limit })
    } else {
        Ok(bytes)
    }
}

/// The text a bounded read of at most `limit` bytes makes a document of:
/// too many bytes are refused first, then bytes that are not UTF-8.
pub fn document_text(bytes: Vec<u8>, limit: u64) -> (r: Result<String, LoadError>)
    ensures
        match r {
            Ok(t) => bytes@.len() <= limit && valid_utf8(bytes@) && t@ == decode_utf8(bytes@),
            Err(e) => if bytes@.len() > limit {
                e == LoadError::TooLarge { limit }
            } else {
                !valid_utf8(bytes@) && e == LoadError::InvalidUtf8
            },
        },
{
    let bytes = read_bounded(bytes, limit)?;
    match string_from_utf8(bytes) {
        Some(t) => Ok(t),
        None => Err(LoadError::InvalidUtf8),
    }
}

/// How many newlines `s` holds.
pub open spec fn newline_count(s: Seq<char>) -> nat
    decreases s.len(),
{
    if s.len() == 0 {
        0
    } else {
        newline_count(s.drop_last()) + if s.last() == '\n' { 1nat } else { 0nat }
    }
}

proof fn lemma_newline_count_bound(s: Seq<char>)
    ensures
        newline_count(s) <= s.len(),
        s.len() > 0 && s.last() != '\n' ==> newline_count(s) < s.len(),
    decreases s.len(),
{
    if s.len() > 0 {
        lemma_newline_count_bound(s.drop_last());
    }
}

/// How many lines `str::lines` finds in `s`: one per newline, and one more
/// for a last line that has none — a trailing newline starts no line.
pub open spec fn line_count_spec(s: Seq<char>) -> nat {
    newline_count(s) + if s.len() > 0 && s.last() != '\n' { 1nat } else { 0nat }
}

/// The line count does not change when a trailing newline is added to text
/// that ends in a line of its own.
pub proof fn law_a_trailing_newline_adds_no_line(s: Seq<char>)
    requires
        s.len() > 0,
        s.last() != '\n',
    ensures
        line_count_spec(s.push('\n')) == line_count_spec(s),
{
    assert(s.push('\n').drop_last() =~= s);
}

/// The raw-file facts the status row reports: of the text as read, before
/// any rewrite touches it.
#[derive(Debug, Clone, PartialEq, Eq)]
pub struct FileInfo {
    pub name: String,
    pub byte_size: u64,
    pub line_count: usize,
}

/// The facts about `text`, read from the source called `name`.
pub fn file_info(text: &str, name: String) -> (info: FileInfo)
    ensures
        info.name@ == name@,
        info.byte_size == encode_utf8(text@).len(),
        info.line_count == line_count_spec(text@),
{
    let byte_size = text.as_bytes().len() as u64;
    let cs = chars_of(text);
    let mut newlines: usize = 0;
    let mut i: usize = 0;
    while i < cs.len()
        invariant
            i <= cs@.len(),
            newlines <= i,
            newlines == newline_count(cs@.take(i as int)),
        decreases cs@.len() - i,
    {
        assert(cs@.take(i + 1).drop_last() =~= cs@.take(i as int));
        if cs[i] == '\n' {
            newlines = newlines + 1;
        }
        i = i + 1;
    }
    assert(cs@.take(cs@.len() as int) =~= cs@);
    proof {
        lemma_newline_count_bound(cs@);
    }
    let last_open = cs.len() > 0 && cs[cs.len() - 1] != '\n';
    let line_count = if last_open { newlines + 1 } else { newlines };
    FileInfo { name, byte_size, line_count }
}

/// Source-text preprocessing policy, fixed for a session.
#[derive(Debug, Clone, Copy)]
pub struct LoadOptions {
    /// Show a leading YAML block as ordinary content instead of hiding it.
    pub show_frontmatter: bool,
    /// Whether the source rewrites run.
    pub rewrite_source: bool,
    /// Whether a remote image is fetched at all. Off unless asked for:
    /// opening a document is not consent to be counted.
    pub fetch_remote: bool,
}

impl Default for LoadOptions {
    /// The default policy: frontmatter hidden, rewrites on, nothing fetched.
    fn default() -> (o: LoadOptions)
        ensures
            !o.show_frontmatter,
            o.rewrite_source,
            !o.fetch_remote,
    {
        LoadOptions { show_frontmatter: false, rewrite_source: true, fetch_remote: false }
    }
}

/// Where the document's bytes come from: a path, as the bytes the
/// filesystem takes, or stdin.
#[derive(Debug, Clone, PartialEq, Eq)]
pub enum DocumentSource {
    Path(Vec<u8>),
    Stdin,
}

/// A [`DocumentSource`], as a value.
pub ghost enum SourceView {
    Path(Seq<u8>),
    Stdin,
}

impl View for DocumentSource {
    type V = SourceView;

    open spec fn view(&self) -> SourceView {
        match self {
            DocumentSource::Path(p) => SourceView::Path(p@),
            DocumentSource::Stdin => SourceView::Stdin,
        }
    }
}

/// The name a source shows as.
pub open spec fn display_name_spec(s: SourceView) -> Seq<char> {
    match s {
        SourceView::Path(p) => lossy_text(p),
        SourceView::Stdin => STDIN_DISPLAY_NAME@,
    }
}

/// The directory relative paths in a source resolve against: a path's
/// parent, or `.` when that is missing or empty, and `.` for a stream.
pub open spec fn base_dir_spec(s: SourceView) -> Seq<u8> {
    match s {
        SourceView::Path(p) => match parent_comps(p) {
            Some(cs) => if render(cs).len() > 0 { render(cs) } else { seq![0x2eu8] },
            None => seq![0x2eu8],
        },
        SourceView::Stdin => seq![0x2eu8],
    }
}

fn dot_path() -> (d: Vec<u8>)
    ensures
        d@ == seq![0x2eu8],
{
    let mut d: Vec<u8> = Vec::new();
    d.push(0x2e);
    assert(d@ =~= seq![0x2eu8]);
    d
}

impl DocumentSource {
    /// The source a command-line argument names: `-` is stdin, anything else
    /// a path. `None` when `--watch` is asked of stdin: a stream is read once
    /// to end and has no later version to follow.
    pub fn from_argument(arg: &str, watch: bool) -> (r: Option<DocumentSource>)
        ensures
            arg@ == "-"@ ==> (if watch { r is None } else { r == Some(DocumentSource::Stdin) }),
            arg@ != "-"@ ==> (r matches Some(DocumentSource::Path(p)) && p@ == encode_utf8(arg@)),
    {
        if str_eq(arg, "-") {
            if watch {
                None
            } else {
                Some(DocumentSource::Stdin)
            }
        } else {
            Some(DocumentSource::Path(bytes_of(arg)))
        }
    }

    /// Whether the source may have changed since a load, given the file's
    /// modification time and the wall-clock reading at the load, both in
    /// nanoseconds since the epoch. A stream never changes; a file whose time
    /// cannot be read, or a load whose wall-clock reading cannot be
    /// reconstructed, counts as changed, so the reload runs and reports the
    /// real error instead of falling silent.
    pub fn changed(&self, modified: Option<u128>, loaded_wall: Option<u128>) -> (r: bool)
        ensures
            r == match self@ {
                SourceView::Stdin => false,
                SourceView::Path(_) => match (modified, loaded_wall) {
                    (Some(m), Some(w)) => m > w,
                    _ => true,
                },
            },
    {
        match self {
            DocumentSource::Stdin => false,
            DocumentSource::Path(_) => match (modified, loaded_wall) {
                (Some(m), Some(w)) => m > w,
                _ => true,
            },
        }
    }

    /// The name shown in the status row.
    pub fn display_name(&self) -> (s: String)
        ensures
            s@ == display_name_spec(self@),
    {
        match self {
            DocumentSource::Path(p) => lossy(p.as_slice()),
            DocumentSource::Stdin => String::from_str(STDIN_DISPLAY_NAME),
        }
    }

    /// The directory relative paths resolve against: the document's own
    /// directory, or the working directory for a stream that has none.
    pub fn base_dir(&self) -> (d: Vec<u8>)
        ensures
            d@ == base_dir_spec(self@),
    {
        match self {
            DocumentSource::Path(p) => match parent_of(p.as_slice()) {
                Some(up) => if up.len() > 0 {
                    up
                } else {
                    dot_path()
                },
                None => dot_path(),
            },
            DocumentSource::Stdin => dot_path(),
        }
    }
}

} // verus!
