//! Turning a directory into rows a painter can draw — pure projection over
//! what a directory read found.
//!
//! An [`EntryKind::Unopenable`] row is listed and dimmed, never selectable:
//! the movement methods skip it, [`Listing::seat`] never lands on it, and
//! [`Listing::rows`] never paints it as the cursor.
//!
//! Names and paths are the bytes the filesystem holds (`Vec<u8>`), so a name
//! that is not UTF-8 is carried exactly and degrades only when it is painted.

use vstd::prelude::*;
use crate::text::{bytes_eq, decimal, lossy, lossy_text, push_char, push_decimal, push_str};
use crate::path::{join, join_path, lexical, lexical_spec, parent_dir, parent_dir_spec};

verus! {

/// The most directory entries a directory read will consider.
pub const MAX_LISTING_ENTRIES: usize = 256;

/// The directory a listing opens: `dir` joined onto the working directory
/// and then normalised lexically, with no symlink resolved and nothing read
/// from the disk. Where the working directory could not be read (`None`),
/// `dir` alone is normalised, so a relative `dir` stays relative.
pub open spec fn absolute_dir_spec(cwd: Option<Seq<u8>>, dir: Seq<u8>) -> Seq<u8> {
    match cwd {
        Some(c) => lexical_spec(join(c, dir)),
        None => lexical_spec(dir),
    }
}

/// [`absolute_dir_spec`], for the working directory the caller read.
pub fn absolute_dir(cwd: Option<&[u8]>, dir: &[u8]) -> (r: Vec<u8>)
    ensures
        r@ == absolute_dir_spec(
            match cwd {
                Some(c) => Some(c@),
                None => None,
            },
            dir@,
        ),
{
    match cwd {
        Some(c) => {
            let joined = join_path(c, dir);
            lexical(joined.as_slice())
        },
        None => lexical(dir),
    }
}

/// What the filesystem says a thing *is*: device and inode. Only equality is
/// meaningful.
#[derive(Debug, Clone, Copy, PartialEq, Eq, Structural)]
pub struct FileId {
    pub dev: u64,
    pub ino: u64,
}

/// Whether the filesystem under a listed directory treats two different
/// spellings as two different names.
#[derive(Debug, Clone, Copy, PartialEq, Eq, Structural)]
pub enum NameEquivalence {
    /// Distinct bytes are distinct names.
    Exact,
    /// Names differing only by case are one name.
    Folded,
}

/// What an [`Entry`] is.
#[derive(Debug, Clone, Copy, PartialEq, Eq, Structural)]
pub enum EntryKind {
    /// The `../` row.
    Parent,
    /// A directory, or a symlink resolving to one.
    Directory,
    /// A regular file, or a symlink resolving to one — whatever its extension.
    Document,
    /// A FIFO, socket, device, or a symlink whose target will not resolve.
    Unopenable,
}

/// One entry in a [`Listing`]: its name and path as bytes, and its kind.
#[derive(Debug, Clone, PartialEq, Eq)]
pub struct Entry {
    pub name: Vec<u8>,
    pub path: Vec<u8>,
    pub kind: EntryKind,
}

/// How an [`OverlayRow`] paints.
#[derive(Debug, Clone, Copy, PartialEq, Eq, Structural)]
pub enum RowStyle {
    /// Plain text.
    Ordinary,
    /// The row under the cursor.
    Selected,
    /// An unopenable or removed row, selected or not.
    Dimmed,
}

/// One row of a rendered overlay: the text to paint and how to paint it.
#[derive(Debug, Clone, PartialEq, Eq)]
pub struct OverlayRow {
    pub text: String,
    pub style: RowStyle,
}

/// A directory read into classified, ordered rows.
///
/// `identities` runs in lockstep with `entries` where it is recorded at all;
/// a synthetic listing records none.
#[derive(Debug)]
pub struct Listing {
    pub(crate) dir: Vec<u8>,
    pub(crate) entries: Vec<Entry>,
    pub(crate) identities: Vec<Option<FileId>>,
    pub(crate) dir_identity: Option<FileId>,
    pub(crate) equivalence: NameEquivalence,
    pub(crate) truncated: bool,
    pub(crate) error: Option<String>,
    pub(crate) dropped: usize,
}

/// The display text of a name: its bytes decoded, invalid sequences replaced.
pub open spec fn shown(name: Seq<u8>) -> Seq<char> {
    lossy_text(name)
}

/// The text an entry paints as.
pub open spec fn row_text_of(name: Seq<u8>, kind: EntryKind) -> Seq<char> {
    match kind {
        EntryKind::Parent => "../"@,
        EntryKind::Directory => shown(name).push('/'),
        EntryKind::Document | EntryKind::Unopenable => shown(name),
    }
}

/// Whether a row of this kind may hold the cursor.
pub open spec fn selectable(kind: EntryKind) -> bool {
    kind != EntryKind::Unopenable
}

/// The text [`row_text_of`] names, for one entry.
pub fn row_text(entry: &Entry) -> (t: String)
    ensures
        t@ == row_text_of(entry.name@, entry.kind),
{
    match entry.kind {
        EntryKind::Parent => String::from_str("../"),
        EntryKind::Directory => {
            let mut t = lossy(entry.name.as_slice());
            push_char(&mut t, '/');
            t
        },
        EntryKind::Document | EntryKind::Unopenable => lossy(entry.name.as_slice()),
    }
}

// ------------------------------------------------------------- windowing

/// What [`overlay_window`] worked out: the notice rows, which list rows to
/// paint after them, and where the cursor actually is.
pub struct Window {
    /// The notice rows — zero or one.
    pub rows: Vec<OverlayRow>,
    /// First list index painted.
    pub start: usize,
    /// One past the last list index painted; `start == end` paints nothing.
    pub end: usize,
    /// `selected`, clamped into the list.
    pub selected: usize,
}

/// The arithmetic of [`overlay_window`], on numbers alone: `(start, end,
/// selected)` for a list of `len` rows shown in `budget` rows with the
/// cursor asked at `selected`.
pub open spec fn window_span(budget: int, len: int, selected: int) -> (int, int, int) {
    if budget <= 0 || len == 0 {
        (0, 0, selected)
    } else {
        let window = if budget < len { budget } else { len };
        let sel = if selected < len - 1 { selected } else { len - 1 };
        let back = if sel >= window / 2 { sel - window / 2 } else { 0 };
        let first = if back < len - window { back } else { len - window };
        (first, first + window, sel)
    }
}

/// The windowing every overlay shares: which `len` rows a `height`-row
/// viewport shows with `selected` among them, after an optional notice row.
///
/// A zero-row viewport paints nothing, not even the notice. Otherwise the
/// notice takes the first row and the rest is the budget; the cursor is
/// clamped into the list, centred where it can be, and the window never runs
/// past the end of the list.
pub fn overlay_window(height: u16, len: usize, selected: usize, notice: Option<String>) -> (w: Window)
    ensures
        height == 0 ==> w.rows@.len() == 0 && w.start == 0 && w.end == 0 && w.selected == selected,
        height > 0 ==> w.rows@.len() == (if notice is Some { 1int } else { 0int }),
        height > 0 && notice is Some ==> w.rows@[0] == (OverlayRow {
            text: notice->0,
            style: RowStyle::Ordinary,
        }),
        height > 0 ==> (w.start as int, w.end as int, w.selected as int) == window_span(
            height - w.rows@.len(),
            len as int,
            selected as int,
        ),
        w.start <= w.end <= len,
        w.end - w.start + w.rows@.len() <= height,
{
    if height == 0 {
        return Window { rows: Vec::new(), start: 0, end: 0, selected };
    }
    let height = height as usize;
    let mut rows: Vec<OverlayRow> = Vec::new();
    if let Some(text) = notice {
        rows.push(OverlayRow { text, style: RowStyle::Ordinary });
    }
    let budget = height - rows.len();
    if budget == 0 || len == 0 {
        return Window { rows, start: 0, end: 0, selected };
    }
    let window = if budget < len { budget } else { len };
    let sel = if selected < len - 1 { selected } else { len - 1 };
    let back = if sel >= window / 2 { sel - window / 2 } else { 0 };
    let first = if back < len - window { back } else { len - window };
    Window { rows, start: first, end: first + window, selected: sel }
}

/// **Law: the cursor is always on screen.** Whenever the window paints any
/// list row at all, it paints as many as fit (the budget or the whole list,
/// whichever is smaller), it stays inside the list, and the clamped cursor is
/// among them.
pub proof fn law_window_holds_cursor(budget: int, len: int, selected: int)
    requires
        budget > 0,
        len > 0,
        selected >= 0,
    ensures
        ({
            let (start, end, sel) = window_span(budget, len, selected);
            &&& 0 <= start <= sel < end <= len
            &&& end - start == if budget < len { budget } else { len }
            &&& sel == if selected < len { selected } else { len - 1 }
        }),
{
}

// ------------------------------------------------------------- listing

/// The notice line that heads the capped-listing message.
pub open spec fn capped_notice() -> Seq<char> {
    "listing capped at 256 entries: some names are missing"@
}

/// The words after a count of unreadable entries.
pub open spec fn dropped_notice(dropped: nat) -> Seq<char> {
    if dropped == 1 {
        "1 entry could not be read"@
    } else {
        decimal(dropped) + " entries could not be read"@
    }
}

/// The one row that heads a listing with something to say about itself.
pub open spec fn listing_notice(error: Option<Seq<char>>, truncated: bool, dropped: nat) -> Option<Seq<char>> {
    match error {
        Some(e) => Some("cannot read directory: "@ + e),
        None => if truncated && dropped > 0 {
            Some(capped_notice() + "; "@ + dropped_notice(dropped))
        } else if truncated {
            Some(capped_notice())
        } else if dropped > 0 {
            Some(dropped_notice(dropped))
        } else {
            None
        },
    }
}

/// The row style of list index `index` with the cursor at `selected`.
pub open spec fn listing_style(kind: EntryKind, index: int, selected: int) -> RowStyle {
    if kind == EntryKind::Unopenable {
        RowStyle::Dimmed
    } else if index == selected {
        RowStyle::Selected
    } else {
        RowStyle::Ordinary
    }
}

/// The first selectable index at or after `from`, if any.
pub open spec fn first_selectable_from(entries: Seq<Entry>, from: int) -> Option<int> {
    if exists|i: int| from <= i < entries.len() && selectable(#[trigger] entries[i].kind) {
        Some(choose|i: int| from <= i < entries.len() && selectable(#[trigger] entries[i].kind)
            && forall|k: int| from <= k < i ==> !selectable(#[trigger] entries[k].kind))
    } else {
        None
    }
}

impl Listing {
    pub closed spec fn dir_spec(&self) -> Seq<u8> {
        self.dir@
    }

    pub closed spec fn entries_spec(&self) -> Seq<Entry> {
        self.entries@
    }

    pub closed spec fn truncated_spec(&self) -> bool {
        self.truncated
    }

    pub closed spec fn dropped_spec(&self) -> usize {
        self.dropped
    }

    pub closed spec fn error_spec(&self) -> Option<Seq<char>> {
        match self.error {
            Some(e) => Some(e@),
            None => None,
        }
    }

    pub closed spec fn equivalence_spec(&self) -> NameEquivalence {
        self.equivalence
    }

    pub closed spec fn dir_identity_spec(&self) -> Option<FileId> {
        self.dir_identity
    }

    /// What was recorded for `entries[index]`, or `None` when nothing was.
    pub closed spec fn identity_spec(&self, index: int) -> Option<FileId> {
        if 0 <= index < self.identities@.len() {
            self.identities@[index]
        } else {
            None
        }
    }

    /// A pure, non-I/O `Listing`, built directly from `entries`: nothing
    /// recorded, byte-exact names, no error, nothing dropped.
    pub fn from_entries(dir: Vec<u8>, entries: Vec<Entry>, truncated: bool) -> (l: Listing)
        ensures
            l.dir_spec() == dir@,
            l.entries_spec() == entries@,
            l.truncated_spec() == truncated,
            l.error_spec() is None,
            l.dropped_spec() == 0,
            l.equivalence_spec() == NameEquivalence::Exact,
            l.dir_identity_spec() is None,
            forall|i: int| #[trigger] l.identity_spec(i) is None,
    {
        Listing::from_parts(dir, entries, truncated, None, 0)
    }

    /// [`Listing::from_entries`] with the two notice states reachable too:
    /// the error a directory read reported, as text, and a count of entries
    /// that could not be classified.
    pub fn from_parts(
        dir: Vec<u8>,
        entries: Vec<Entry>,
        truncated: bool,
        error: Option<String>,
        dropped: usize,
    ) -> (l: Listing)
        ensures
            l.dir_spec() == dir@,
            l.entries_spec() == entries@,
            l.truncated_spec() == truncated,
            l.error_spec() == (match error {
                Some(e) => Some(e@),
                None => None::<Seq<char>>,
            }),
            l.dropped_spec() == dropped,
            l.equivalence_spec() == NameEquivalence::Exact,
            l.dir_identity_spec() is None,
            forall|i: int| #[trigger] l.identity_spec(i) is None,
    {
        Listing {
            dir,
            entries,
            identities: Vec::new(),
            dir_identity: None,
            equivalence: NameEquivalence::Exact,
            truncated,
            error,
            dropped,
        }
    }

    /// The same listing, answering `equivalence` for its filesystem.
    pub fn with_equivalence(self, equivalence: NameEquivalence) -> (l: Listing)
        ensures
            l.equivalence_spec() == equivalence,
            l.dir_spec() == self.dir_spec(),
            l.entries_spec() == self.entries_spec(),
            l.truncated_spec() == self.truncated_spec(),
            l.error_spec() == self.error_spec(),
            l.dropped_spec() == self.dropped_spec(),
            l.dir_identity_spec() == self.dir_identity_spec(),
            forall|i: int| #[trigger] l.identity_spec(i) == self.identity_spec(i),
    {
        let mut l = self;
        l.equivalence = equivalence;
        l
    }

    /// How this listing's filesystem decides whether two names are one name.
    pub fn equivalence(&self) -> (e: NameEquivalence)
        ensures
            e == self.equivalence_spec(),
    {
        self.equivalence
    }

    /// What the listed directory itself resolved to when it was read.
    pub fn dir_identity(&self) -> (id: Option<FileId>)
        ensures
            id == self.dir_identity_spec(),
    {
        self.dir_identity
    }

    /// What was recorded for `entries[index]`, or `None`.
    pub fn identity(&self, index: usize) -> (id: Option<FileId>)
        ensures
            id == self.identity_spec(index as int),
    {
        if index < self.identities.len() {
            self.identities[index]
        } else {
            None
        }
    }

    /// The directory this listing was read from (or built for).
    pub fn dir(&self) -> (d: &[u8])
        ensures
            d@ == self.dir_spec(),
    {
        self.dir.as_slice()
    }

    /// Every entry, in the listing's stable order.
    pub fn entries(&self) -> (e: &[Entry])
        ensures
            e@ == self.entries_spec(),
    {
        self.entries.as_slice()
    }

    /// Where `-` ascends to: the `../` row's own recorded target, or `None`
    /// when the listing has no parent row.
    pub fn parent(&self) -> (p: Option<&[u8]>)
        ensures
            match p {
                Some(p) => self.entries_spec().len() > 0
                    && self.entries_spec()[0].kind == EntryKind::Parent
                    && p@ == self.entries_spec()[0].path@,
                None => self.entries_spec().len() == 0
                    || self.entries_spec()[0].kind != EntryKind::Parent,
            },
    {
        if self.entries.len() > 0 && self.entries[0].kind == EntryKind::Parent {
            Some(self.entries[0].path.as_slice())
        } else {
            None
        }
    }

    /// Whether the read stopped at [`MAX_LISTING_ENTRIES`].
    pub fn truncated(&self) -> (t: bool)
        ensures
            t == self.truncated_spec(),
    {
        self.truncated
    }

    /// How many entries the read named but could not classify.
    pub fn dropped(&self) -> (d: usize)
        ensures
            d == self.dropped_spec(),
    {
        self.dropped
    }

    /// The error the directory read returned, as text.
    pub fn error(&self) -> (e: Option<&String>)
        ensures
            match e {
                Some(e) => self.error_spec() == Some(e@),
                None => self.error_spec() is None,
            },
    {
        self.error.as_ref()
    }

    /// The one row that precedes the entries when this listing has something
    /// to say about itself: the read error, or the cap and the unreadable
    /// count sharing one line.
    pub fn notice(&self) -> (n: Option<String>)
        ensures
            match n {
                Some(n) => listing_notice(self.error_spec(), self.truncated_spec(), self.dropped_spec() as nat) == Some(n@),
                None => listing_notice(self.error_spec(), self.truncated_spec(), self.dropped_spec() as nat) is None,
            },
    {
        if let Some(error) = &self.error {
            let mut t = String::from_str("cannot read directory: ");
            push_str(&mut t, error.as_str());
            return Some(t);
        }
        if self.truncated && self.dropped > 0 {
            let mut t = String::from_str("listing capped at 256 entries: some names are missing");
            push_str(&mut t, "; ");
            let d = dropped_text(self.dropped);
            push_str(&mut t, d.as_str());
            Some(t)
        } else if self.truncated {
            Some(String::from_str("listing capped at 256 entries: some names are missing"))
        } else if self.dropped > 0 {
            Some(dropped_text(self.dropped))
        } else {
            None
        }
    }

    /// The rows this listing paints into a viewport `height` rows tall,
    /// windowed by [`overlay_window`] so the (clamped) cursor is among them.
    ///
    /// An unopenable row paints dimmed even under the cursor; the selected
    /// row paints selected; everything else ordinary.
    pub fn rows(&self, height: u16, selected: usize) -> (rows: Vec<OverlayRow>)
        ensures
            ({
                let n = listing_notice(self.error_spec(), self.truncated_spec(), self.dropped_spec() as nat);
                let lead: int = if height > 0 && n is Some { 1 } else { 0 };
                let (start, end, sel) = window_span(height - lead, self.entries_spec().len() as int, selected as int);
                let shown_rows: int = if height == 0 { 0 } else { end - start };
                &&& rows@.len() == lead + shown_rows
                &&& lead == 1 ==> rows@[0].text@ == n->0 && rows@[0].style == RowStyle::Ordinary
                &&& forall|k: int| 0 <= k < shown_rows ==> {
                    let e = #[trigger] self.entries_spec()[start + k];
                    &&& rows@[lead + k].text@ == row_text_of(e.name@, e.kind)
                    &&& rows@[lead + k].style == listing_style(e.kind, start + k, sel)
                }
            }),
    {
        let window = overlay_window(height, self.entries.len(), selected, self.notice());
        let sel = window.selected;
        let mut rows = window.rows;
        let lead = rows.len();
        let mut i = window.start;
        while i < window.end
            invariant
                window.start <= i <= window.end <= self.entries@.len(),
                rows@.len() == lead + (i - window.start),
                forall|k: int| 0 <= k < lead ==> rows@[k] == window.rows@[k],
                forall|k: int| 0 <= k < i - window.start ==> {
                    let e = #[trigger] self.entries@[window.start + k];
                    &&& rows@[lead + k].text@ == row_text_of(e.name@, e.kind)
                    &&& rows@[lead + k].style == listing_style(e.kind, window.start + k, sel as int)
                },
            decreases window.end - i,
        {
            let entry = &self.entries[i];
            let style = if entry.kind == EntryKind::Unopenable {
                RowStyle::Dimmed
            } else if i == sel {
                RowStyle::Selected
            } else {
                RowStyle::Ordinary
            };
            rows.push(OverlayRow { text: row_text(entry), style });
            i = i + 1;
        }
        rows
    }

    /// The first selectable index, or `None` if nothing here is selectable.
    pub fn first_selectable(&self) -> (r: Option<usize>)
        ensures
            match r {
                Some(i) => i < self.entries_spec().len() && selectable(self.entries_spec()[i as int].kind)
                    && forall|k: int| 0 <= k < i ==> !selectable(#[trigger] self.entries_spec()[k].kind),
                None => forall|k: int| 0 <= k < self.entries_spec().len() ==> !selectable(#[trigger] self.entries_spec()[k].kind),
            },
    {
        self.selectable_from(0)
    }

    /// The first selectable index at or after `from`.
    fn selectable_from(&self, from: usize) -> (r: Option<usize>)
        ensures
            match r {
                Some(i) => from <= i < self.entries_spec().len() && selectable(self.entries_spec()[i as int].kind)
                    && forall|k: int| from <= k < i ==> !selectable(#[trigger] self.entries_spec()[k].kind),
                None => forall|k: int| from <= k < self.entries_spec().len() ==> !selectable(#[trigger] self.entries_spec()[k].kind),
            },
    {
        let mut i = from;
        while i < self.entries.len()
            invariant
                from <= i,
                forall|k: int| from <= k < i ==> !selectable(#[trigger] self.entries@[k].kind),
            decreases self.entries@.len() - i,
        {
            if self.entries[i].kind != EntryKind::Unopenable {
                return Some(i);
            }
            i = i + 1;
        }
        None
    }

    /// The nearest selectable index strictly after `from`, or `None` when
    /// moving down is a no-op.
    pub fn next_selectable(&self, from: usize) -> (r: Option<usize>)
        ensures
            match r {
                Some(i) => from < i < self.entries_spec().len() && selectable(self.entries_spec()[i as int].kind)
                    && forall|k: int| from < k < i ==> !selectable(#[trigger] self.entries_spec()[k].kind),
                None => forall|k: int| from < k < self.entries_spec().len() ==> !selectable(#[trigger] self.entries_spec()[k].kind),
            },
    {
        if from >= self.entries.len() {
            return None;
        }
        self.selectable_from(from + 1)
    }

    /// The nearest selectable index strictly before `from`, or `None` when
    /// moving up is a no-op.
    pub fn prev_selectable(&self, from: usize) -> (r: Option<usize>)
        ensures
            match r {
                Some(i) => i < from && i < self.entries_spec().len() && selectable(self.entries_spec()[i as int].kind)
                    && forall|k: int| i < k < from && k < self.entries_spec().len() ==> !selectable(#[trigger] self.entries_spec()[k].kind),
                None => forall|k: int| 0 <= k < from && k < self.entries_spec().len() ==> !selectable(#[trigger] self.entries_spec()[k].kind),
            },
    {
        let mut i = if from < self.entries.len() { from } else { self.entries.len() };
        while i > 0
            invariant
                i <= from,
                i <= self.entries@.len(),
                forall|k: int| i <= k < from && k < self.entries@.len() ==> !selectable(#[trigger] self.entries@[k].kind),
            decreases i,
        {
            if self.entries[i - 1].kind != EntryKind::Unopenable {
                return Some(i - 1);
            }
            i = i - 1;
        }
        None
    }

    /// Where a fresh listing lands with no seed: the first selectable row
    /// past a leading `../` row, else the first selectable row, else `0`.
    pub fn default_selection(&self) -> (r: usize)
        ensures
            r == self.default_selection_spec(),
    {
        let starts_with_parent = self.entries.len() > 0 && self.entries[0].kind == EntryKind::Parent;
        if starts_with_parent {
            if let Some(i) = self.next_selectable(0) {
                return i;
            }
        }
        match self.first_selectable() {
            Some(i) => i,
            None => 0,
        }
    }

    /// The landing row a fresh listing chooses with no seed.
    pub open spec fn default_selection_spec(&self) -> usize {
        let e = self.entries_spec();
        let past_parent = if e.len() > 0 && e[0].kind == EntryKind::Parent {
            first_selectable_from(e, 1)
        } else {
            None
        };
        match past_parent {
            Some(i) => i as usize,
            None => match first_selectable_from(e, 0) {
                Some(i) => i as usize,
                None => 0,
            },
        }
    }

    /// Where the cursor lands in a freshly-read listing: the first selectable
    /// row named `seed`, or [`Listing::default_selection`] when there is no
    /// seed or no selectable row by that name.
    pub fn seat(&self, seed: Option<&[u8]>) -> (r: usize)
        ensures
            match seed {
                Some(name) => if exists|i: int| 0 <= i < self.entries_spec().len()
                    && #[trigger] self.entries_spec()[i].name@ == name@
                    && selectable(self.entries_spec()[i].kind) {
                    r < self.entries_spec().len()
                        && self.entries_spec()[r as int].name@ == name@
                        && selectable(self.entries_spec()[r as int].kind)
                        && forall|k: int| 0 <= k < r ==> !(#[trigger] self.entries_spec()[k].name@ == name@
                            && selectable(self.entries_spec()[k].kind))
                } else {
                    r == self.default_selection_spec()
                },
                None => r == self.default_selection_spec(),
            },
    {
        if let Some(name) = seed {
            if let Some(i) = self.find_selectable_named(name) {
                return i;
            }
        }
        self.default_selection()
    }

    /// The first selectable row named `name`, if any.
    fn find_selectable_named(&self, name: &[u8]) -> (r: Option<usize>)
        ensures
            match r {
                Some(i) => i < self.entries_spec().len()
                    && self.entries_spec()[i as int].name@ == name@
                    && selectable(self.entries_spec()[i as int].kind)
                    && forall|k: int| 0 <= k < i ==> !(#[trigger] self.entries_spec()[k].name@ == name@
                        && selectable(self.entries_spec()[k].kind)),
                None => !exists|i: int| 0 <= i < self.entries_spec().len()
                    && #[trigger] self.entries_spec()[i].name@ == name@
                    && selectable(self.entries_spec()[i].kind),
            },
    {
        let mut i: usize = 0;
        while i < self.entries.len()
            invariant
                i <= self.entries@.len(),
                forall|k: int| 0 <= k < i ==> !(#[trigger] self.entries_spec()[k].name@ == name@
                    && selectable(self.entries_spec()[k].kind)),
            decreases self.entries@.len() - i,
        {
            if bytes_eq(self.entries[i].name.as_slice(), name) && self.entries[i].kind != EntryKind::Unopenable {
                return Some(i);
            }
            i = i + 1;
        }
        None
    }
}

/// `"{n} entries could not be read"`, or the singular for one.
fn dropped_text(n: usize) -> (t: String)
    requires
        n > 0,
    ensures
        t@ == dropped_notice(n as nat),
{
    if n == 1 {
        String::from_str("1 entry could not be read")
    } else {
        let mut t = String::new();
        push_decimal(&mut t, n as u128);
        push_str(&mut t, " entries could not be read");
        t
    }
}


/// Some selectable row at or after `from` makes the first one exist.
proof fn lemma_some_first_selectable(e: Seq<Entry>, from: int, i: int)
    requires
        0 <= from <= i < e.len(),
        selectable(e[i].kind),
    ensures
        exists|m: int| from <= m < e.len() && selectable(#[trigger] e[m].kind)
            && forall|k: int| from <= k < m ==> !selectable(#[trigger] e[k].kind),
    decreases i - from,
{
    if selectable(e[from].kind) {
        assert(from <= from < e.len() && selectable(e[from].kind)
            && forall|k: int| from <= k < from ==> !selectable(#[trigger] e[k].kind));
    } else {
        lemma_some_first_selectable(e, from + 1, i);
        let m = choose|m: int| from + 1 <= m < e.len() && selectable(#[trigger] e[m].kind)
            && forall|k: int| from + 1 <= k < m ==> !selectable(#[trigger] e[k].kind);
        assert forall|k: int| from <= k < m implies !selectable(#[trigger] e[k].kind) by {
            if k > from {
                assert(from + 1 <= k < m);
            }
        }
        assert(from <= m < e.len() && selectable(e[m].kind));
    }
}

/// The first selectable row at or after `from` is selectable, and no row
/// between `from` and it is.
proof fn lemma_first_selectable_from(e: Seq<Entry>, from: int, i: int)
    requires
        0 <= from <= i < e.len(),
        selectable(e[i].kind),
    ensures
        first_selectable_from(e, from) matches Some(m) && from <= m < e.len() && selectable(e[m].kind)
            && forall|k: int| from <= k < m ==> !selectable(#[trigger] e[k].kind),
{
    lemma_some_first_selectable(e, from, i);
}

/// Where a fresh listing lands with no name to look for: past a leading
/// `../` row onto the first selectable entry after it, when there is one;
/// otherwise on the first selectable row; and on row `0` when nothing can
/// hold the cursor. So a directory with real content never opens with the
/// cursor on `../`.
pub proof fn law_a_fresh_listing_lands_past_the_parent_row(l: Listing)
    requires
        l.entries_spec().len() <= usize::MAX,
    ensures
        ({
            let e = l.entries_spec();
            let r = l.default_selection_spec() as int;
            let past_parent = e.len() > 0 && e[0].kind == EntryKind::Parent
                && exists|i: int| 1 <= i < e.len() && selectable(#[trigger] e[i].kind);
            &&& past_parent ==> {
                &&& 1 <= r < e.len()
                &&& selectable(e[r].kind)
                &&& forall|k: int| 1 <= k < r ==> !selectable(#[trigger] e[k].kind)
            }
            &&& (!past_parent && exists|i: int| 0 <= i < e.len() && selectable(#[trigger] e[i].kind)) ==> {
                &&& 0 <= r < e.len()
                &&& selectable(e[r].kind)
                &&& forall|k: int| 0 <= k < r ==> !selectable(#[trigger] e[k].kind)
            }
            &&& (forall|i: int| 0 <= i < e.len() ==> !selectable(#[trigger] e[i].kind)) ==> r == 0
        }),
{
    let e = l.entries_spec();
    if e.len() > 0 && e[0].kind == EntryKind::Parent && exists|i: int| 1 <= i < e.len() && selectable(#[trigger] e[i].kind) {
        let i = choose|i: int| 1 <= i < e.len() && selectable(#[trigger] e[i].kind);
        lemma_first_selectable_from(e, 1, i);
    } else if exists|i: int| 0 <= i < e.len() && selectable(#[trigger] e[i].kind) {
        let i = choose|i: int| 0 <= i < e.len() && selectable(#[trigger] e[i].kind);
        lemma_first_selectable_from(e, 0, i);
        if e.len() > 0 && e[0].kind == EntryKind::Parent {
            assert(first_selectable_from(e, 1) is None);
        }
    } else {
        if e.len() > 0 && e[0].kind == EntryKind::Parent {
            assert(first_selectable_from(e, 1) is None);
        }
        assert(first_selectable_from(e, 0) is None);
    }
}

// ------------------------------------------------------------ reading

/// Whether `a` sorts no later than `b` in byte order: lexicographic, a
/// prefix before anything that extends it — the order names compare in.
pub open spec fn bytes_le(a: Seq<u8>, b: Seq<u8>) -> bool
    decreases a.len(),
{
    if a.len() == 0 {
        true
    } else if b.len() == 0 {
        false
    } else if a[0] != b[0] {
        a[0] < b[0]
    } else {
        bytes_le(a.drop_first(), b.drop_first())
    }
}

proof fn lemma_bytes_le_total(a: Seq<u8>, b: Seq<u8>)
    ensures
        bytes_le(a, b) || bytes_le(b, a),
    decreases a.len(),
{
    if a.len() > 0 && b.len() > 0 && a[0] == b[0] {
        lemma_bytes_le_total(a.drop_first(), b.drop_first());
    }
}

proof fn lemma_bytes_le_trans(a: Seq<u8>, b: Seq<u8>, c: Seq<u8>)
    requires
        bytes_le(a, b),
        bytes_le(b, c),
    ensures
        bytes_le(a, c),
    decreases a.len(),
{
    if a.len() > 0 && b.len() > 0 && c.len() > 0 && a[0] == b[0] && b[0] == c[0] {
        lemma_bytes_le_trans(a.drop_first(), b.drop_first(), c.drop_first());
    }
}

/// Whether `a` sorts no later than `b` in byte order.
pub fn bytes_le_exec(a: &[u8], b: &[u8]) -> (r: bool)
    ensures
        r == bytes_le(a@, b@),
{
    let mut i: usize = 0;
    assert(a@.skip(0) =~= a@ && b@.skip(0) =~= b@);
    while i < a.len() && i < b.len() && a[i] == b[i]
        invariant
            i <= a@.len(),
            i <= b@.len(),
            bytes_le(a@, b@) == bytes_le(a@.skip(i as int), b@.skip(i as int)),
        decreases a@.len() - i,
    {
        assert(a@.skip(i as int).drop_first() =~= a@.skip(i + 1));
        assert(b@.skip(i as int).drop_first() =~= b@.skip(i + 1));
        i = i + 1;
    }
    if i == a.len() {
        true
    } else if i == b.len() {
        false
    } else {
        a[i] < b[i]
    }
}

/// An entry with what the read recorded for it.
pub type Child = (Entry, Option<FileId>);

/// Whether `c` runs in byte order of name.
pub open spec fn sorted_by_name(c: Seq<Child>) -> bool {
    forall|i: int, j: int| 0 <= i < j < c.len() ==> bytes_le(c[i].0.name@, c[j].0.name@)
}

/// Where `x` goes among the first `n` of `s`: before the first whose name
/// `x`'s does not exceed, or after all `n`.
pub open spec fn fit_before(s: Seq<Child>, x: Child, n: int) -> int
    decreases n,
{
    if n <= 0 {
        0
    } else {
        let k = fit_before(s, x, n - 1);
        if k < n - 1 {
            k
        } else if bytes_le(x.0.name@, s[n - 1].0.name@) {
            n - 1
        } else {
            n
        }
    }
}

/// `x` placed into `s`, before every entry whose name is not below its own.
pub open spec fn insert_by_name(s: Seq<Child>, x: Child) -> Seq<Child> {
    s.insert(fit_before(s, x, s.len() as int), x)
}

/// `s` in byte order of name, entries with equal names in the order they
/// came: a stable sort.
pub open spec fn by_name(s: Seq<Child>) -> Seq<Child>
    decreases s.len(),
{
    if s.len() == 0 {
        s
    } else {
        insert_by_name(by_name(s.drop_first()), s[0])
    }
}

proof fn lemma_fit_before(s: Seq<Child>, x: Child, n: int)
    requires
        0 <= n,
    ensures
        0 <= fit_before(s, x, n) <= n,
        forall|m: int| 0 <= m < fit_before(s, x, n) ==> !bytes_le(x.0.name@, #[trigger] s[m].0.name@),
        fit_before(s, x, n) < n ==> bytes_le(x.0.name@, s[fit_before(s, x, n)].0.name@),
    decreases n,
{
    if n > 0 {
        lemma_fit_before(s, x, n - 1);
    }
}

/// Putting `x` in front of the first name it does not exceed keeps a
/// name-sorted sequence sorted.
proof fn lemma_insert_keeps_sorted(s: Seq<Child>, x: Child, k: int)
    requires
        sorted_by_name(s),
        0 <= k <= s.len(),
        forall|m: int| 0 <= m < k ==> !bytes_le(x.0.name@, #[trigger] s[m].0.name@),
        k < s.len() ==> bytes_le(x.0.name@, s[k].0.name@),
    ensures
        sorted_by_name(s.insert(k, x)),
{
    let t = s.insert(k, x);
    assert forall|m: int| 0 <= m < k implies bytes_le(#[trigger] s[m].0.name@, x.0.name@) by {
        lemma_bytes_le_total(s[m].0.name@, x.0.name@);
    }
    assert forall|i: int, j: int| 0 <= i < j < t.len()
        implies bytes_le(t[i].0.name@, t[j].0.name@) by {
        if j < k {
            assert(t[i] == s[i] && t[j] == s[j]);
            assert(bytes_le(s[i].0.name@, s[j].0.name@));
        } else if j == k {
            assert(t[i] == s[i] && t[j] == x);
            assert(bytes_le(s[i].0.name@, x.0.name@));
        } else if i == k {
            assert(t[i] == x && t[j] == s[j - 1]);
            if j - 1 > k {
                assert(bytes_le(s[k].0.name@, s[j - 1].0.name@));
                lemma_bytes_le_trans(x.0.name@, s[k].0.name@, s[j - 1].0.name@);
            }
        } else if i < k {
            assert(t[i] == s[i] && t[j] == s[j - 1]);
            assert(bytes_le(s[i].0.name@, s[j - 1].0.name@));
        } else {
            assert(t[i] == s[i - 1] && t[j] == s[j - 1]);
            assert(bytes_le(s[i - 1].0.name@, s[j - 1].0.name@));
        }
    }
}

proof fn lemma_fit_before_stays(s: Seq<Child>, x: Child, m: int, n: int)
    requires
        0 <= m <= n,
        fit_before(s, x, m) < m,
    ensures
        fit_before(s, x, n) == fit_before(s, x, m),
    decreases n - m,
{
    if n > m {
        lemma_fit_before_stays(s, x, m, n - 1);
    }
}

/// `children` in byte order of name, entries with equal names in the order
/// they came.
pub fn sort_by_name(children: Vec<Child>) -> (r: Vec<Child>)
    ensures
        r@ == by_name(children@),
        r@.to_multiset() == children@.to_multiset(),
        sorted_by_name(r@),
{
    broadcast use vstd::seq_lib::group_to_multiset_ensures;
    let ghost all = children@;
    let mut rest = children;
    let mut out: Vec<Child> = Vec::new();
    assert(all.skip(all.len() as int) =~= Seq::<Child>::empty());
    while rest.len() > 0
        invariant
            rest@ == all.take(rest@.len() as int),
            rest@.len() <= all.len(),
            out@ == by_name(all.skip(rest@.len() as int)),
            out@.to_multiset().add(rest@.to_multiset()) == all.to_multiset(),
            sorted_by_name(out@),
        decreases rest@.len(),
    {
        let ghost before_rest = rest@;
        let ghost r = rest@.len() as int;
        let x = rest.pop().unwrap();
        assert(before_rest =~= rest@.push(x));
        assert(rest@ =~= all.take(rest@.len() as int));
        let mut k: usize = 0;
        while k < out.len() && !bytes_le_exec(x.0.name.as_slice(), out[k].0.name.as_slice())
            invariant
                k <= out@.len(),
                forall|m: int| 0 <= m < k ==> !bytes_le(x.0.name@, #[trigger] out@[m].0.name@),
            decreases out@.len() - k,
        {
            k = k + 1;
        }
        let ghost old_out = out@;
        proof {
            lemma_fit_before(old_out, x, old_out.len() as int);
            let f = fit_before(old_out, x, old_out.len() as int);
            if k < old_out.len() {
                assert(bytes_le(x.0.name@, old_out[k as int].0.name@));
                if f < k {
                    assert(!bytes_le(x.0.name@, old_out[f].0.name@));
                }
                if k < f {
                    assert(!bytes_le(x.0.name@, old_out[k as int].0.name@));
                }
            } else if f < k {
                assert(!bytes_le(x.0.name@, old_out[f].0.name@));
            }
            assert(f == k);
            let suffix = all.skip(r - 1);
            assert(suffix.drop_first() =~= all.skip(r));
            assert(suffix[0] == x);
        }
        out.insert(k, x);
        proof {
            assert(out@ == old_out.insert(k as int, x));
            vstd::seq_lib::to_multiset_insert(old_out, k as int, x);
            vstd::seq_lib::to_multiset_build(rest@, x);
            assert(out@.to_multiset().add(rest@.to_multiset()) =~= all.to_multiset());
            lemma_insert_keeps_sorted(old_out, x, k as int);
        }
    }
    assert(all.skip(0) =~= all);
    out
}

/// The name of the `../` row.
pub open spec fn dotdot_name() -> Seq<u8> {
    seq![0x2eu8, 0x2eu8]
}

impl Listing {
    /// What a read of `dir` found, as a listing: the `../` row first when
    /// `dir` has a parent, then every classified child in byte order of
    /// name, each with the identity the read recorded for it. `dropped`
    /// counts entries that could not be classified, `truncated` says the
    /// directory held more than [`MAX_LISTING_ENTRIES`], and `error` is why
    /// the directory could not be read at all. Until a probe says otherwise
    /// the filesystem is taken to fold case, the answer that refuses an edit
    /// rather than waving a collision through.
    pub fn read(
        dir: Vec<u8>,
        dir_identity: Option<FileId>,
        children: Vec<Child>,
        truncated: bool,
        dropped: usize,
        error: Option<String>,
    ) -> (l: Listing)
        ensures
            l.dir_spec() == dir@,
            l.dir_identity_spec() == dir_identity,
            l.truncated_spec() == truncated,
            l.dropped_spec() == dropped,
            l.error_spec() == (match error {
                Some(e) => Some(e@),
                None => None::<Seq<char>>,
            }),
            l.equivalence_spec() == NameEquivalence::Folded,
            ({
                let k: int = if parent_dir_spec(dir@) is Some { 1 } else { 0 };
                &&& l.entries_spec().len() == k + children@.len()
                &&& parent_dir_spec(dir@) matches Some(up) ==> {
                    &&& l.entries_spec()[0].name@ == dotdot_name()
                    &&& l.entries_spec()[0].path@ == up
                    &&& l.entries_spec()[0].kind == EntryKind::Parent
                    &&& l.identity_spec(0) is None
                }
                &&& Seq::new(children@.len(), |i: int| (l.entries_spec()[k + i], l.identity_spec(k + i))).to_multiset()
                    == children@.to_multiset()
                &&& sorted_by_name(Seq::new(children@.len(), |i: int| (l.entries_spec()[k + i], l.identity_spec(k + i))))
                &&& Seq::new(children@.len(), |i: int| (l.entries_spec()[k + i], l.identity_spec(k + i))) == by_name(children@)
            }),
    {
        let sorted = sort_by_name(children);
        proof {
            vstd::seq_lib::to_multiset_len(sorted@);
            vstd::seq_lib::to_multiset_len(children@);
        }
        let mut entries: Vec<Entry> = Vec::new();
        let mut identities: Vec<Option<FileId>> = Vec::new();
        let parent = parent_dir(dir.as_slice());
        if let Some(up) = parent {
            let mut name: Vec<u8> = Vec::new();
            name.push(0x2e);
            name.push(0x2e);
            assert(name@ =~= dotdot_name());
            let ghost up_v = up@;
            entries.push(Entry { name, path: up, kind: EntryKind::Parent });
            identities.push(None);
            assert(entries@[0].path@ == up_v);
        }
        assert(parent_dir_spec(dir@) matches Some(u) ==> entries@.len() == 1 && entries@[0].name@ == dotdot_name()
            && entries@[0].path@ == u && entries@[0].kind == EntryKind::Parent && identities@[0] is None);
        assert(parent_dir_spec(dir@) is None ==> entries@.len() == 0);
        let ghost k: int = entries@.len() as int;
        let ghost placed = sorted@;
        let mut rest = sorted;
        let mut taken: Vec<Child> = Vec::new();
        let ghost n = placed.len();
        // Drained back to front, then laid down front to back.
        while rest.len() > 0
            invariant
                taken@.len() + rest@.len() == n,
                placed.len() == n,
                rest@ == placed.take(rest@.len() as int),
                forall|i: int| 0 <= i < taken@.len() ==> #[trigger] taken@[i] == placed[n - 1 - i],
            decreases rest@.len(),
        {
            let x = rest.pop().unwrap();
            assert(rest@ =~= placed.take(rest@.len() as int));
            taken.push(x);
        }
        let ghost head = entries@;
        let ghost head_ids = identities@;
        while taken.len() > 0
            invariant
                entries@.len() == identities@.len(),
                entries@.len() == k + (n - taken@.len()),
                0 <= k <= 1,
                entries@.take(k) == head,
                identities@.take(k) == head_ids,
                head.len() == k,
                head_ids.len() == k,
                taken@.len() <= n,
                forall|i: int| 0 <= i < taken@.len() ==> #[trigger] taken@[i] == placed[n - 1 - i],
                forall|i: int| 0 <= i < n - taken@.len() ==> entries@[k + i] == placed[i].0 && identities@[k + i] == placed[i].1,
            decreases taken@.len(),
        {
            let (e, id) = taken.pop().unwrap();
            entries.push(e);
            identities.push(id);
            assert(entries@.take(k) =~= head);
            assert(identities@.take(k) =~= head_ids);
        }
        let l = Listing {
            dir,
            entries,
            identities,
            dir_identity,
            equivalence: NameEquivalence::Folded,
            truncated,
            error,
            dropped,
        };
        proof {
            let view = Seq::new(n, |i: int| (l.entries_spec()[k + i], l.identity_spec(k + i)));
            assert forall|i: int| 0 <= i < n implies view[i] == placed[i] by {
                assert(l.identity_spec(k + i) == l.identities@[k + i]);
            }
            assert(view =~= placed);
            assert(view.to_multiset() == children@.to_multiset());
            assert(sorted_by_name(view));
            if k == 1 {
                assert(l.entries_spec()[0] == head[0]);
                assert(l.identities@[0] == head_ids[0]);
            }
        }
        l
    }
}

} // verus!
