//! Editing a listed directory: the buffer a reader types into, the names it
//! may produce, and the plan an edited buffer becomes.
//!
//! Identity is the entry index a buffer line carries in its own text —
//! `"{id}\t{text}"` — never row position, so a rename is told apart from a
//! delete-plus-create. Every produced name is validated twice on the way to
//! a path: once as a name ([`validate_new_name`]) and once as a path, by
//! proving the join landed directly inside the listed directory
//! ([`child_path`]).

use vstd::prelude::*;
use vstd::utf8::*;
use crate::explore::{
    Entry, FileId, NameEquivalence, overlay_window, row_text, row_text_of, window_span, EntryKind, Listing, OverlayRow, RowStyle,
};
use crate::path::{
    components, file_name, file_name_of, join, join_path, parent_comps, parent_is, Comp,
    components_of, comps_view, dot, dotdot, segments, seg_comps, is_absolute, slash,
    lemma_segments_nonempty, Component, parent_of, render,
};
use crate::text::{
    all_whitespace, bytes_of, chars_of, is_whitespace, push_char, push_decimal, push_str,
    string_of, unicode_whitespace, decimal, lossy, lossy_text, lowercase, parse_usize,
    parse_usize_spec, string_from_utf8, to_lowercase, find_char, slice_chars, join_seq, join_strings,
    strings_view, str_eq, to_uppercase, uppercase, index_of, lemma_index_of, is_digit,
    lemma_decimal_reads_back, lemma_parse_decimal,
};

verus! {

// ------------------------------------------------------------------ names

/// Why a name a reader typed cannot become a filename.
#[derive(Debug, Clone, Copy, PartialEq, Eq, Structural)]
pub enum NameFault {
    /// Empty, or nothing but whitespace.
    Blank,
    /// Contains a path separator.
    Separator,
    /// Exactly `.` or `..`.
    Dot,
    /// Contains a NUL.
    Nul,
    /// Contains a newline or carriage return.
    Newline,
    /// The join did not land directly inside the listed directory.
    Escapes,
}

/// The fault [`validate_new_name`] finds in `s`, checked in its order.
pub open spec fn name_fault(s: Seq<char>) -> Option<NameFault> {
    if all_whitespace(s) {
        Some(NameFault::Blank)
    } else if s.contains('\0') {
        Some(NameFault::Nul)
    } else if s.contains('\n') || s.contains('\r') {
        Some(NameFault::Newline)
    } else if s.contains('/') {
        Some(NameFault::Separator)
    } else if s == seq!['.'] || s == seq!['.', '.'] {
        Some(NameFault::Dot)
    } else {
        None
    }
}

/// Whether `name`, typed by a reader, may become a filename here.
pub fn validate_new_name(name: &str) -> (r: Result<(), NameFault>)
    ensures
        match r {
            Ok(()) => name_fault(name@) is None,
            Err(f) => name_fault(name@) == Some(f),
        },
{
    let cs = chars_of(name);
    let mut blank = true;
    let mut nul = false;
    let mut newline = false;
    let mut sep = false;
    let mut i: usize = 0;
    while i < cs.len()
        invariant
            i <= cs.len(),
            cs@ == name@,
            blank == forall|k: int| 0 <= k < i ==> #[trigger] unicode_whitespace(cs@[k]),
            nul == exists|k: int| 0 <= k < i && #[trigger] cs@[k] == '\0',
            newline == exists|k: int| 0 <= k < i && (#[trigger] cs@[k] == '\n' || cs@[k] == '\r'),
            sep == exists|k: int| 0 <= k < i && #[trigger] cs@[k] == '/',
        decreases cs.len() - i,
    {
        let c = cs[i];
        if !is_whitespace(c) {
            blank = false;
        }
        if c == '\0' {
            nul = true;
        }
        if c == '\n' || c == '\r' {
            newline = true;
        }
        if c == '/' {
            sep = true;
        }
        i = i + 1;
    }
    proof {
        if name@.contains('\0') {
            let k = choose|k: int| 0 <= k < name@.len() && name@[k] == '\0';
            assert(cs@[k] == '\0');
        }
        if name@.contains('\n') {
            let k = choose|k: int| 0 <= k < name@.len() && name@[k] == '\n';
            assert(cs@[k] == '\n');
        }
        if name@.contains('\r') {
            let k = choose|k: int| 0 <= k < name@.len() && name@[k] == '\r';
            assert(cs@[k] == '\r');
        }
        if name@.contains('/') {
            let k = choose|k: int| 0 <= k < name@.len() && name@[k] == '/';
            assert(cs@[k] == '/');
        }
    }
    if blank {
        return Err(NameFault::Blank);
    }
    if nul {
        return Err(NameFault::Nul);
    }
    if newline {
        return Err(NameFault::Newline);
    }
    if sep {
        return Err(NameFault::Separator);
    }
    if cs.len() == 1 && cs[0] == '.' {
        assert(name@ =~= seq!['.']);
        return Err(NameFault::Dot);
    }
    if cs.len() == 2 && cs[0] == '.' && cs[1] == '.' {
        assert(name@ =~= seq!['.', '.']);
        return Err(NameFault::Dot);
    }
    assert(name@ != seq!['.']) by {
        if name@ == seq!['.'] { assert(cs@.len() == 1); }
    }
    assert(name@ != seq!['.', '.']) by {
        if name@ == seq!['.', '.'] { assert(cs@.len() == 2 && cs@[0] == '.'); }
    }
    Ok(())
}

/// What [`child_path`] answers for `name` in `dir`.
pub open spec fn child_path_spec(dir: Seq<u8>, name: Seq<char>) -> Result<Seq<u8>, NameFault> {
    match name_fault(name) {
        Some(f) => Err(f),
        None => {
            let p = join(dir, encode_utf8(name));
            if parent_comps(p) != Some(components(dir)) || file_name(p) != Some(encode_utf8(name)) {
                Err(NameFault::Escapes)
            } else {
                Ok(p)
            }
        },
    }
}

/// `dir` joined with `name`, proven to be a direct child of `dir`.
pub fn child_path(dir: &[u8], name: &str) -> (r: Result<Vec<u8>, NameFault>)
    ensures
        match r {
            Ok(p) => child_path_spec(dir@, name@) == Ok::<Seq<u8>, NameFault>(p@),
            Err(f) => child_path_spec(dir@, name@) == Err::<Seq<u8>, NameFault>(f),
        },
        // the barricade: whatever comes back is a direct child of `dir`, named `name`
        r matches Ok(p) ==> parent_comps(p@) == Some(components(dir@))
            && file_name(p@) == Some(encode_utf8(name@)),
{
    validate_new_name(name)?;
    let bytes = bytes_of(name);
    let path = join_path(dir, bytes.as_slice());
    if !parent_is(path.as_slice(), dir) {
        return Err(NameFault::Escapes);
    }
    match file_name_of(path.as_slice()) {
        Some(n) => {
            if !crate::text::bytes_eq(n.as_slice(), bytes.as_slice()) {
                return Err(NameFault::Escapes);
            }
        },
        None => {
            return Err(NameFault::Escapes);
        },
    }
    Ok(path)
}

/// Whether a name already on disk is a plain child name: exactly one
/// ordinary component, equal to itself, and no NUL byte.
pub open spec fn entry_name_ok_spec(name: Seq<u8>) -> bool {
    components(name) == seq![Comp::Normal(name)] && !name.contains(0u8)
}

/// Whether a name already on disk is a plain child name.
pub fn entry_name_ok(name: &[u8]) -> (r: bool)
    ensures
        r == entry_name_ok_spec(name@),
{
    let cs = components_of(name);
    if cs.len() != 1 {
        assert(components(name@).len() != 1);
        return false;
    }
    assert(comps_view(cs@)[0] == cs@[0].view());
    let single = match &cs[0] {
        Component::Normal(n) => crate::text::bytes_eq(n.as_slice(), name),
        _ => false,
    };
    if !single {
        assert(components(name@) != seq![Comp::Normal(name@)]) by {
            if components(name@) == seq![Comp::Normal(name@)] {
                assert(comps_view(cs@)[0] == Comp::Normal(name@));
            }
        }
        return false;
    }
    assert(components(name@) =~= seq![Comp::Normal(name@)]);
    let mut i: usize = 0;
    while i < name.len()
        invariant
            i <= name.len(),
            forall|k: int| 0 <= k < i ==> name@[k] != 0u8,
        decreases name.len() - i,
    {
        if name[i] == 0 {
            assert(name@.contains(0u8));
            return false;
        }
        i = i + 1;
    }
    true
}

// ------------------------------------------------------------------ buffer

/// The gutter markers, two cells each.
pub open spec fn mark_unchanged() -> Seq<char> { "  "@ }
pub open spec fn mark_edited() -> Seq<char> { "~ "@ }
pub open spec fn mark_new() -> Seq<char> { "+ "@ }
pub open spec fn mark_removed() -> Seq<char> { "- "@ }

/// One line of an [`EditBuffer`], as a value.
pub ghost struct RowView {
    /// The listing index this row came from; `None` for a row the reader added.
    pub origin: Option<usize>,
    /// What the listing classified `origin` as; `None` for a new row.
    pub kind: Option<EntryKind>,
    /// The text the row was seeded with.
    pub seeded: Seq<char>,
    /// The text the row holds now.
    pub text: Seq<char>,
    /// Whether the reader marked the row for removal.
    pub removed: bool,
}

/// An [`EditBuffer`], as a value.
pub ghost struct BufferView {
    pub truncated: bool,
    pub rows: Seq<RowView>,
}

/// Whether the reader may type into or remove a row: anything but `../`.
pub open spec fn row_editable(r: RowView) -> bool {
    r.kind != Some(EntryKind::Parent)
}

/// The gutter a row paints in.
pub open spec fn row_marker(r: RowView) -> Seq<char> {
    if r.removed {
        mark_removed()
    } else if r.origin is None {
        mark_new()
    } else if r.text == r.seeded {
        mark_unchanged()
    } else {
        mark_edited()
    }
}

/// What a row contributes to [`EditBuffer::lines`], if anything.
pub open spec fn row_line(r: RowView) -> Option<Seq<char>> {
    if !row_editable(r) || r.removed {
        None
    } else {
        match r.origin {
            Some(id) => Some(decimal(id as nat) + "\t"@ + r.text),
            None => if r.text.len() == 0 { None } else { Some("\t"@ + r.text) },
        }
    }
}

/// The lines a buffer hands to [`EditPlan::diff`], in row order.
pub open spec fn buffer_lines(rows: Seq<RowView>) -> Seq<Seq<char>>
    decreases rows.len(),
{
    if rows.len() == 0 {
        Seq::empty()
    } else {
        let rest = buffer_lines(rows.drop_last());
        match row_line(rows.last()) {
            Some(l) => rest.push(l),
            None => rest,
        }
    }
}

/// The rows a buffer opened over `entries` starts with: one per entry, in
/// listing order, each holding the text its row paints.
pub open spec fn seeded_rows(entries: Seq<Entry>) -> Seq<RowView> {
    Seq::new(entries.len(), |i: int| RowView {
        origin: Some(i as usize),
        kind: Some(entries[i].kind),
        seeded: row_text_of(entries[i].name@, entries[i].kind),
        text: row_text_of(entries[i].name@, entries[i].kind),
        removed: false,
    })
}

/// Whether a row differs from what it was seeded with.
pub open spec fn row_dirty(r: RowView) -> bool {
    r.removed || r.origin is None || r.text != r.seeded
}

/// Renamed, added and removed rows, counted.
pub open spec fn tally_spec(rows: Seq<RowView>) -> (nat, nat, nat)
    decreases rows.len(),
{
    if rows.len() == 0 {
        (0, 0, 0)
    } else {
        let (a, b, c) = tally_spec(rows.drop_last());
        let r = rows.last();
        if r.removed {
            (a, b, c + 1)
        } else if r.origin is None {
            (a, b + 1, c)
        } else if r.text != r.seeded {
            (a + 1, b, c)
        } else {
            (a, b, c)
        }
    }
}

/// The notice a capped buffer shows.
pub open spec fn buffer_notice() -> Seq<char> {
    "listing capped: names you never saw are missing, so removed rows will be ignored"@
}

/// The row style of buffer index `index` with the cursor at `selected`.
pub open spec fn buffer_style(r: RowView, index: int, selected: int) -> RowStyle {
    if r.removed {
        RowStyle::Dimmed
    } else if index == selected {
        RowStyle::Selected
    } else {
        RowStyle::Ordinary
    }
}

/// One line of an [`EditBuffer`].
#[derive(Debug, Clone, PartialEq, Eq)]
pub struct EditRow {
    origin: Option<usize>,
    kind: Option<EntryKind>,
    seeded: String,
    text: String,
    removed: bool,
}

impl EditRow {
    pub closed spec fn view(&self) -> RowView {
        RowView {
            origin: self.origin,
            kind: self.kind,
            seeded: self.seeded@,
            text: self.text@,
            removed: self.removed,
        }
    }

    /// The gutter this row paints in.
    fn marker(&self) -> (m: String)
        ensures
            m@ == row_marker(self.view()),
    {
        if self.removed {
            String::from_str("- ")
        } else if self.origin.is_none() {
            String::from_str("+ ")
        } else if crate::text::str_eq(self.text.as_str(), self.seeded.as_str()) {
            String::from_str("  ")
        } else {
            String::from_str("~ ")
        }
    }

    /// Whether the reader may type into or remove this row.
    fn editable(&self) -> (r: bool)
        ensures
            r == row_editable(self.view()),
    {
        match self.kind {
            Some(EntryKind::Parent) => false,
            _ => true,
        }
    }
}

/// A [`Listing`] the reader can type into: one row per listed entry,
/// including the `../` row, plus whatever rows the reader adds.
#[derive(Debug, Clone, PartialEq, Eq)]
pub struct EditBuffer {
    truncated: bool,
    rows: Vec<EditRow>,
}

impl View for EditBuffer {
    type V = BufferView;

    closed spec fn view(&self) -> BufferView {
        BufferView {
            truncated: self.truncated,
            rows: Seq::new(self.rows@.len(), |i: int| self.rows@[i].view()),
        }
    }
}

/// `String::pop`: drops the last character, if there is one.
#[verifier::external_body]
fn pop_last_char(s: &mut String)
    ensures
        final(s)@ == if old(s)@.len() > 0 { old(s)@.drop_last() } else { old(s)@ },
{
    s.pop();
}

impl EditBuffer {
    /// One row per entry, seeded with exactly the text [`Listing::rows`]
    /// paints, so entering edit mode changes the gutter and nothing else.
    pub fn new(listing: &Listing) -> (b: EditBuffer)
        ensures
            b@.truncated == listing.truncated_spec(),
            b@.rows == seeded_rows(listing.entries_spec()),
    {
        let entries = listing.entries();
        let mut rows: Vec<EditRow> = Vec::new();
        let mut i: usize = 0;
        while i < entries.len()
            invariant
                i <= entries@.len(),
                entries@ == listing.entries_spec(),
                rows@.len() == i,
                forall|k: int| 0 <= k < i ==> #[trigger] rows@[k].view() == (RowView {
                    origin: Some(k as usize),
                    kind: Some(entries@[k].kind),
                    seeded: row_text_of(entries@[k].name@, entries@[k].kind),
                    text: row_text_of(entries@[k].name@, entries@[k].kind),
                    removed: false,
                }),
            decreases entries@.len() - i,
        {
            let seeded = row_text(&entries[i]);
            let text = row_text(&entries[i]);
            rows.push(EditRow { origin: Some(i), kind: Some(entries[i].kind), seeded, text, removed: false });
            i = i + 1;
        }
        let b = EditBuffer { truncated: listing.truncated(), rows };
        assert(b@.rows =~= seeded_rows(listing.entries_spec()));
        b
    }

    /// The buffer as [`EditPlan::diff`] reads it: `"{id}\t{text}"` for a
    /// row seeded from the listing, `"\t{text}"` for a non-empty new row,
    /// and nothing for a removed row, the `../` row or an empty new row.
    pub fn lines(&self) -> (v: Vec<String>)
        ensures
            v@.len() == buffer_lines(self@.rows).len(),
            forall|i: int| 0 <= i < v@.len() ==> #[trigger] v@[i]@ == buffer_lines(self@.rows)[i],
    {
        let mut v: Vec<String> = Vec::new();
        let mut i: usize = 0;
        assert(self@.rows.take(0) =~= Seq::<RowView>::empty());
        while i < self.rows.len()
            invariant
                i <= self.rows@.len(),
                self@.rows.len() == self.rows@.len(),
                v@.len() == buffer_lines(self@.rows.take(i as int)).len(),
                forall|k: int| 0 <= k < v@.len() ==> #[trigger] v@[k]@ == buffer_lines(self@.rows.take(i as int))[k],
            decreases self.rows@.len() - i,
        {
            assert(self@.rows.take(i + 1).drop_last() =~= self@.rows.take(i as int));
            assert(self@.rows.take(i + 1).last() == self.rows@[i as int].view());
            let row = &self.rows[i];
            if row.editable() && !row.removed {
                match row.origin {
                    Some(id) => {
                        let mut t = String::new();
                        push_decimal(&mut t, id as u128);
                        push_char(&mut t, '\t');
                        push_str(&mut t, row.text.as_str());
                        assert(t@ =~= decimal(id as nat) + "\t"@ + row.text@) by {
                            reveal_strlit("\t");
                        }
                        v.push(t);
                    },
                    None => {
                        if !row.text.as_str().is_empty() {
                            let mut t = String::new();
                            push_char(&mut t, '\t');
                            push_str(&mut t, row.text.as_str());
                            assert(t@ =~= "\t"@ + row.text@) by {
                                reveal_strlit("\t");
                            }
                            v.push(t);
                        } else {
                            assert(row.text@.len() == 0);
                        }
                    },
                }
            }
            i = i + 1;
        }
        assert(self@.rows.take(self.rows@.len() as int) =~= self@.rows);
        v
    }

    /// The rows this buffer paints into a viewport `height` rows tall,
    /// windowed by the same [`overlay_window`] the listing uses: gutter
    /// marker then text; a removed row dimmed, the cursor row selected.
    pub fn rows(&self, height: u16, selected: usize) -> (out: Vec<OverlayRow>)
        ensures
            ({
                let lead: int = if height > 0 && self@.truncated { 1 } else { 0 };
                let (start, end, sel) = window_span(height - lead, self@.rows.len() as int, selected as int);
                let shown: int = if height == 0 { 0 } else { end - start };
                &&& out@.len() == lead + shown
                &&& lead == 1 ==> out@[0].text@ == buffer_notice() && out@[0].style == RowStyle::Ordinary
                &&& forall|k: int| 0 <= k < shown ==> {
                    let r = #[trigger] self@.rows[start + k];
                    &&& out@[lead + k].text@ == row_marker(r) + r.text
                    &&& out@[lead + k].style == buffer_style(r, start + k, sel)
                }
            }),
    {
        let notice = if self.truncated {
            Some(String::from_str("listing capped: names you never saw are missing, so removed rows will be ignored"))
        } else {
            None
        };
        let window = overlay_window(height, self.rows.len(), selected, notice);
        let sel = window.selected;
        let mut out = window.rows;
        let lead = out.len();
        let mut i = window.start;
        while i < window.end
            invariant
                window.start <= i <= window.end <= self.rows@.len(),
                self@.rows.len() == self.rows@.len(),
                out@.len() == lead + (i - window.start),
                forall|k: int| 0 <= k < lead ==> out@[k] == window.rows@[k],
                forall|k: int| 0 <= k < i - window.start ==> {
                    let r = #[trigger] self@.rows[window.start + k];
                    &&& out@[lead + k].text@ == row_marker(r) + r.text
                    &&& out@[lead + k].style == buffer_style(r, window.start + k, sel as int)
                },
            decreases window.end - i,
        {
            let row = &self.rows[i];
            assert(self@.rows[i as int] == row.view());
            let style = if row.removed {
                RowStyle::Dimmed
            } else if i == sel {
                RowStyle::Selected
            } else {
                RowStyle::Ordinary
            };
            let mut text = row.marker();
            push_str(&mut text, row.text.as_str());
            out.push(OverlayRow { text, style });
            i = i + 1;
        }
        out
    }

    /// How many rows this buffer holds.
    pub fn len(&self) -> (n: usize)
        ensures
            n == self@.rows.len(),
    {
        self.rows.len()
    }

    /// Whether this buffer holds no rows at all.
    pub fn is_empty(&self) -> (r: bool)
        ensures
            r == (self@.rows.len() == 0),
    {
        self.rows.len() == 0
    }

    /// Whether the reader has changed anything: a removed row, a new row
    /// (even still empty), or a row whose text differs from its seed.
    pub fn is_dirty(&self) -> (r: bool)
        ensures
            r == exists|i: int| 0 <= i < self@.rows.len() && row_dirty(#[trigger] self@.rows[i]),
    {
        let mut i: usize = 0;
        while i < self.rows.len()
            invariant
                i <= self.rows@.len(),
                self@.rows.len() == self.rows@.len(),
                forall|k: int| 0 <= k < i ==> !row_dirty(#[trigger] self@.rows[k]),
            decreases self.rows@.len() - i,
        {
            let row = &self.rows[i];
            assert(self@.rows[i as int] == row.view());
            if row.removed || row.origin.is_none() || !crate::text::str_eq(row.text.as_str(), row.seeded.as_str()) {
                assert(row_dirty(self@.rows[i as int]));
                return true;
            }
            i = i + 1;
        }
        false
    }

    /// Renamed, added, removed.
    pub fn tally(&self) -> (t: (usize, usize, usize))
        ensures
            (t.0 as nat, t.1 as nat, t.2 as nat) == tally_spec(self@.rows),
    {
        let mut renamed: usize = 0;
        let mut added: usize = 0;
        let mut removed: usize = 0;
        let mut i: usize = 0;
        assert(self@.rows.take(0) =~= Seq::<RowView>::empty());
        while i < self.rows.len()
            invariant
                i <= self.rows@.len(),
                self@.rows.len() == self.rows@.len(),
                (renamed as nat, added as nat, removed as nat) == tally_spec(self@.rows.take(i as int)),
                renamed + added + removed <= i,
            decreases self.rows@.len() - i,
        {
            assert(self@.rows.take(i + 1).drop_last() =~= self@.rows.take(i as int));
            assert(self@.rows.take(i + 1).last() == self.rows@[i as int].view());
            let row = &self.rows[i];
            if row.removed {
                removed = removed + 1;
            } else if row.origin.is_none() {
                added = added + 1;
            } else if !crate::text::str_eq(row.text.as_str(), row.seeded.as_str()) {
                renamed = renamed + 1;
            }
            i = i + 1;
        }
        assert(self@.rows.take(self.rows@.len() as int) =~= self@.rows);
        (renamed, added, removed)
    }

    /// The dirty-buffer indicator for the status row.
    pub fn indicator(&self) -> (s: String)
        ensures
            ({
                let (a, b, c) = tally_spec(self@.rows);
                if exists|i: int| 0 <= i < self@.rows.len() && row_dirty(#[trigger] self@.rows[i]) {
                    s@ == "[+] "@ + decimal(a) + " renamed, "@ + decimal(b) + " new, "@ + decimal(c)
                        + " removed — w writes, Esc discards"@
                } else {
                    s@ == "[ ] editing — w writes, Esc discards"@
                }
            }),
    {
        let (renamed, added, removed) = self.tally();
        if !self.is_dirty() {
            return String::from_str("[ ] editing — w writes, Esc discards");
        }
        let mut s = String::from_str("[+] ");
        push_decimal(&mut s, renamed as u128);
        push_str(&mut s, " renamed, ");
        push_decimal(&mut s, added as u128);
        push_str(&mut s, " new, ");
        push_decimal(&mut s, removed as u128);
        push_str(&mut s, " removed — w writes, Esc discards");
        s
    }

    /// Whether the reader may type into or remove row `row`.
    pub fn is_editable(&self, row: usize) -> (r: bool)
        ensures
            r == (row < self@.rows.len() && row_editable(self@.rows[row as int])),
    {
        if row < self.rows.len() {
            self.rows[row].editable()
        } else {
            false
        }
    }

    /// Row `row`'s current text, without its gutter.
    pub fn text(&self, row: usize) -> (t: Option<&str>)
        ensures
            match t {
                Some(t) => row < self@.rows.len() && t@ == self@.rows[row as int].text,
                None => row >= self@.rows.len(),
            },
    {
        if row < self.rows.len() {
            Some(self.rows[row].text.as_str())
        } else {
            None
        }
    }

    /// Appends one character to row `row`, when it exists and is editable.
    pub fn push_char(&mut self, row: usize, ch: char)
        ensures
            final(self)@.truncated == old(self)@.truncated,
            final(self)@.rows == if row < old(self)@.rows.len() && row_editable(old(self)@.rows[row as int]) {
                old(self)@.rows.update(row as int, RowView {
                    text: old(self)@.rows[row as int].text.push(ch),
                    ..old(self)@.rows[row as int]
                })
            } else {
                old(self)@.rows
            },
    {
        if row < self.rows.len() && self.rows[row].editable() {
            let ghost before = self.rows@;
            let mut r = self.rows.remove(row);
            push_char(&mut r.text, ch);
            self.rows.insert(row, r);
            assert(self.rows@ =~= before.update(row as int, r));
            assert(self@.rows =~= old(self)@.rows.update(row as int, r.view()));
        }
    }

    /// Drops the last character of row `row`, when it exists and is editable.
    pub fn pop_char(&mut self, row: usize)
        ensures
            final(self)@.truncated == old(self)@.truncated,
            final(self)@.rows == if row < old(self)@.rows.len() && row_editable(old(self)@.rows[row as int]) {
                old(self)@.rows.update(row as int, RowView {
                    text: if old(self)@.rows[row as int].text.len() > 0 {
                        old(self)@.rows[row as int].text.drop_last()
                    } else {
                        old(self)@.rows[row as int].text
                    },
                    ..old(self)@.rows[row as int]
                })
            } else {
                old(self)@.rows
            },
    {
        if row < self.rows.len() && self.rows[row].editable() {
            let ghost before = self.rows@;
            let mut r = self.rows.remove(row);
            pop_last_char(&mut r.text);
            self.rows.insert(row, r);
            assert(self.rows@ =~= before.update(row as int, r));
            assert(self@.rows =~= old(self)@.rows.update(row as int, r.view()));
        }
    }

    /// Puts row `row` back to the text it was seeded with, when it exists
    /// and is editable.
    pub fn revert(&mut self, row: usize)
        ensures
            final(self)@.truncated == old(self)@.truncated,
            final(self)@.rows == if row < old(self)@.rows.len() && row_editable(old(self)@.rows[row as int]) {
                old(self)@.rows.update(row as int, RowView {
                    text: old(self)@.rows[row as int].seeded,
                    ..old(self)@.rows[row as int]
                })
            } else {
                old(self)@.rows
            },
    {
        if row < self.rows.len() && self.rows[row].editable() {
            let ghost before = self.rows@;
            let mut r = self.rows.remove(row);
            r.text = String::from_str(r.seeded.as_str());
            self.rows.insert(row, r);
            assert(self.rows@ =~= before.update(row as int, r));
            assert(self@.rows =~= old(self)@.rows.update(row as int, r.view()));
        }
    }

    /// Marks row `row` for removal, or unmarks it, when it exists and is
    /// editable.
    pub fn toggle_removed(&mut self, row: usize)
        ensures
            final(self)@.truncated == old(self)@.truncated,
            final(self)@.rows == if row < old(self)@.rows.len() && row_editable(old(self)@.rows[row as int]) {
                old(self)@.rows.update(row as int, RowView {
                    removed: !old(self)@.rows[row as int].removed,
                    ..old(self)@.rows[row as int]
                })
            } else {
                old(self)@.rows
            },
    {
        if row < self.rows.len() && self.rows[row].editable() {
            let ghost before = self.rows@;
            let mut r = self.rows.remove(row);
            r.removed = !r.removed;
            self.rows.insert(row, r);
            assert(self.rows@ =~= before.update(row as int, r));
            assert(self@.rows =~= old(self)@.rows.update(row as int, r.view()));
        }
    }

    /// Inserts an empty new row directly after `after` (at the end when
    /// `after` is past it) and answers where it landed.
    pub fn insert_new(&mut self, after: usize) -> (at: usize)
        ensures
            at == (if after < old(self)@.rows.len() { after + 1 } else { old(self)@.rows.len() as int }),
            final(self)@.truncated == old(self)@.truncated,
            final(self)@.rows == old(self)@.rows.insert(at as int, RowView {
                origin: None,
                kind: None,
                seeded: Seq::empty(),
                text: Seq::empty(),
                removed: false,
            }),
    {
        let at = if after < self.rows.len() { after + 1 } else { self.rows.len() };
        let ghost before = self.rows@;
        let r = EditRow { origin: None, kind: None, seeded: String::new(), text: String::new(), removed: false };
        self.rows.insert(at, r);
        assert(self.rows@ =~= before.insert(at as int, r));
        assert(self@.rows =~= old(self)@.rows.insert(at as int, r.view()));
        at
    }
}

// ------------------------------------------------------------------ plan

/// How many doomed names the confirmation prompt spells out.
pub const MAX_NAMED_DELETES: usize = 6;

/// One change to the filesystem, carrying whole paths.
#[derive(Debug, Clone, PartialEq, Eq)]
pub enum Operation {
    /// Move `from` to `to`; both are direct children of the listed directory.
    Rename { from: Vec<u8>, to: Vec<u8> },
    /// Create an empty file at `path`, exclusively.
    Create { path: Vec<u8> },
    /// Remove `path`, but only while it still holds what the read recorded.
    Delete { path: Vec<u8>, identity: Option<FileId> },
}

/// An [`Operation`], as a value.
pub ghost enum OpView {
    Rename { from: Seq<u8>, to: Seq<u8> },
    Create { path: Seq<u8> },
    Delete { path: Seq<u8>, identity: Option<FileId> },
}

impl Operation {
    pub open spec fn view(&self) -> OpView {
        match self {
            Operation::Rename { from, to } => OpView::Rename { from: from@, to: to@ },
            Operation::Create { path } => OpView::Create { path: path@ },
            Operation::Delete { path, identity } => OpView::Delete { path: path@, identity: *identity },
        }
    }

    /// A copy of this operation.
    pub fn duplicate(&self) -> (o: Operation)
        ensures
            o.view() == self.view(),
    {
        match self {
            Operation::Rename { from, to } => Operation::Rename { from: from.clone(), to: to.clone() },
            Operation::Create { path } => Operation::Create { path: path.clone() },
            Operation::Delete { path, identity } => Operation::Delete { path: path.clone(), identity: *identity },
        }
    }

    /// The path this operation acts on — the destination for a rename.
    pub fn target(&self) -> (p: &[u8])
        ensures
            p@ == op_target(self.view()),
    {
        match self {
            Operation::Rename { to, .. } => to.as_slice(),
            Operation::Create { path } => path.as_slice(),
            Operation::Delete { path, .. } => path.as_slice(),
        }
    }
}

/// The path an operation acts on.
pub open spec fn op_target(o: OpView) -> Seq<u8> {
    match o {
        OpView::Rename { to, .. } => to,
        OpView::Create { path } => path,
        OpView::Delete { path, .. } => path,
    }
}

/// Why an edited buffer could not become a plan. `line` is the 0-based
/// index into the buffer's lines.
#[derive(Debug, Clone, PartialEq, Eq)]
pub enum EditError {
    MalformedRow { line: usize },
    UnknownRow { line: usize, id: usize },
    DuplicateRow { line: usize, id: usize },
    ParentRow { line: usize },
    InconsistentListing { name: String },
    IllegalName { line: usize, name: String, fault: NameFault },
    NameTaken { line: usize, name: String, existing: String },
    DuplicateName { name: String, other: String },
    NonUtf8Rename { line: usize, shown: String },
    DirectoryCreate { line: usize, name: String },
}

/// An [`EditError`], as a value.
pub ghost enum ErrView {
    MalformedRow { line: usize },
    UnknownRow { line: usize, id: usize },
    DuplicateRow { line: usize, id: usize },
    ParentRow { line: usize },
    InconsistentListing { name: Seq<char> },
    IllegalName { line: usize, name: Seq<char>, fault: NameFault },
    NameTaken { line: usize, name: Seq<char>, existing: Seq<char> },
    DuplicateName { name: Seq<char>, other: Seq<char> },
    NonUtf8Rename { line: usize, shown: Seq<char> },
    DirectoryCreate { line: usize, name: Seq<char> },
}

impl EditError {
    pub open spec fn view(&self) -> ErrView {
        match self {
            EditError::MalformedRow { line } => ErrView::MalformedRow { line: *line },
            EditError::UnknownRow { line, id } => ErrView::UnknownRow { line: *line, id: *id },
            EditError::DuplicateRow { line, id } => ErrView::DuplicateRow { line: *line, id: *id },
            EditError::ParentRow { line } => ErrView::ParentRow { line: *line },
            EditError::InconsistentListing { name } => ErrView::InconsistentListing { name: name@ },
            EditError::IllegalName { line, name, fault } => ErrView::IllegalName { line: *line, name: name@, fault: *fault },
            EditError::NameTaken { line, name, existing } => ErrView::NameTaken { line: *line, name: name@, existing: existing@ },
            EditError::DuplicateName { name, other } => ErrView::DuplicateName { name: name@, other: other@ },
            EditError::NonUtf8Rename { line, shown } => ErrView::NonUtf8Rename { line: *line, shown: shown@ },
            EditError::DirectoryCreate { line, name } => ErrView::DirectoryCreate { line: *line, name: name@ },
        }
    }
}

/// Whether `left`, a name on disk, and `right`, a name a reader typed, are
/// one name as far as `eq` is concerned: byte-identical, or — on a folding
/// filesystem — text whose lowercase forms agree.
pub open spec fn folds_spec(eq: NameEquivalence, left: Seq<u8>, right: Seq<char>) -> bool {
    left == encode_utf8(right) || (eq == NameEquivalence::Folded && valid_utf8(left)
        && lowercase(decode_utf8(left)) == lowercase(right))
}

/// Whether `left` and `right` are the same name under `eq`.
pub fn folds_together(eq: NameEquivalence, left: &[u8], right: &str) -> (r: bool)
    ensures
        r == folds_spec(eq, left@, right@),
{
    let rb = bytes_of(right);
    if crate::text::bytes_eq(left, rb.as_slice()) {
        return true;
    }
    match eq {
        NameEquivalence::Exact => false,
        NameEquivalence::Folded => {
            let mut copy: Vec<u8> = Vec::new();
            let mut i: usize = 0;
            while i < left.len()
                invariant
                    i <= left.len(),
                    copy@ == left@.take(i as int),
                decreases left.len() - i,
            {
                copy.push(left[i]);
                assert(left@.take(i + 1) == left@.take(i as int).push(left@[i as int]));
                i = i + 1;
            }
            assert(left@.take(left.len() as int) == left@);
            match string_from_utf8(copy) {
                Some(l) => {
                    let a = to_lowercase(l.as_str());
                    let b = to_lowercase(right);
                    crate::text::str_eq(a.as_str(), b.as_str())
                },
                None => false,
            }
        },
    }
}

// ---- listing consistency

/// Whether entry `i` makes `entries` something other than a plain reading
/// of one directory: a `../` row pointing back into `dir`, a name that is
/// not one plain component, a path that is not `dir` joined with the name,
/// or a name an earlier entry already has.
pub open spec fn entry_inconsistent(dir: Seq<u8>, entries: Seq<Entry>, i: int) -> bool {
    let e = entries[i];
    if e.kind == EntryKind::Parent {
        parent_comps(e.path@) == Some(components(dir))
    } else {
        ||| !entry_name_ok_spec(e.name@)
        ||| components(e.path@) != components(join(dir, e.name@))
        ||| exists|j: int| 0 <= j < i && (#[trigger] entries[j]).kind != EntryKind::Parent && entries[j].name@ == e.name@
    }
}

/// The first inconsistent entry among the first `n`, if any.
pub open spec fn first_inconsistent(dir: Seq<u8>, entries: Seq<Entry>, n: int) -> Option<int>
    decreases n,
{
    if n <= 0 {
        None
    } else {
        match first_inconsistent(dir, entries, n - 1) {
            Some(k) => Some(k),
            None => if entry_inconsistent(dir, entries, n - 1) { Some(n - 1) } else { None },
        }
    }
}

proof fn lemma_first_inconsistent_stays(dir: Seq<u8>, entries: Seq<Entry>, m: int, n: int)
    requires
        0 <= m <= n,
        first_inconsistent(dir, entries, m) is Some,
    ensures
        first_inconsistent(dir, entries, n) == first_inconsistent(dir, entries, m),
    decreases n - m,
{
    if n > m {
        lemma_first_inconsistent_stays(dir, entries, m, n - 1);
    }
}

/// How an inconsistent entry is named in the refusal: a `../` row by its
/// path, anything else by its name.
pub open spec fn inconsistency_name(e: Entry) -> Seq<char> {
    if e.kind == EntryKind::Parent { lossy_text(e.path@) } else { lossy_text(e.name@) }
}

fn check_entry(dir: &[u8], entries: &[Entry], i: usize) -> (r: bool)
    requires
        i < entries@.len(),
    ensures
        r == entry_inconsistent(dir@, entries@, i as int),
{
    let e = &entries[i];
    assert(*e == entries@[i as int]);
    if e.kind == EntryKind::Parent {
        return parent_is(e.path.as_slice(), dir);
    }
    assert(entries@[i as int].kind != EntryKind::Parent);
    if !entry_name_ok(e.name.as_slice()) {
        return true;
    }
    let joined = join_path(dir, e.name.as_slice());
    if !crate::path::same_path(e.path.as_slice(), joined.as_slice()) {
        return true;
    }
    let mut j: usize = 0;
    assert(e.name@ == entries@[i as int].name@);
    while j < i
        invariant
            j <= i < entries@.len(),
            e.name@ == entries@[i as int].name@,
            entries@[i as int].kind != EntryKind::Parent,
            forall|k: int| 0 <= k < j ==> !((#[trigger] entries@[k]).kind != EntryKind::Parent && entries@[k].name@ == entries@[i as int].name@),
        decreases i - j,
    {
        if entries[j].kind != EntryKind::Parent && crate::text::bytes_eq(entries[j].name.as_slice(), e.name.as_slice()) {
            assert((entries@[j as int]).kind != EntryKind::Parent && entries@[j as int].name@ == entries@[i as int].name@);
            return true;
        }
        j = j + 1;
    }
    false
}

/// Refuses a listing that is not a plain reading of one directory.
fn check_listing(dir: &[u8], entries: &[Entry]) -> (r: Result<(), EditError>)
    ensures
        match first_inconsistent(dir@, entries@, entries@.len() as int) {
            Some(k) => r matches Err(e) && e.view() == ErrView::InconsistentListing { name: inconsistency_name(entries@[k]) },
            None => r is Ok,
        },
{
    let mut i: usize = 0;
    while i < entries.len()
        invariant
            i <= entries@.len(),
            first_inconsistent(dir@, entries@, i as int) is None,
        decreases entries@.len() - i,
    {
        assert(first_inconsistent(dir@, entries@, i + 1) == (if entry_inconsistent(dir@, entries@, i as int) { Some(i as int) } else { None }));
        if check_entry(dir, entries, i) {
            let e = &entries[i];
            proof { lemma_first_inconsistent_stays(dir@, entries@, i as int + 1, entries@.len() as int); }
            let name = if e.kind == EntryKind::Parent { lossy(e.path.as_slice()) } else { lossy(e.name.as_slice()) };
            return Err(EditError::InconsistentListing { name });
        }
        i = i + 1;
    }
    Ok(())
}

// ---- lines

/// One name an edit brings into existence: the line that asked for it, the
/// entry it renames away from (`None` for a create), and the name.
pub ghost struct ProducedView {
    pub line: usize,
    pub origin: Option<usize>,
    pub name: Seq<char>,
}

struct Produced {
    line: usize,
    origin: Option<usize>,
    name: String,
}

impl Produced {
    spec fn view(&self) -> ProducedView {
        ProducedView { line: self.line, origin: self.origin, name: self.name@ }
    }
}

/// What reading the lines has gathered so far.
pub ghost struct ParseView {
    /// Which listing entries some line has named.
    pub present: Seq<bool>,
    pub renames: Seq<OpView>,
    pub creates: Seq<OpView>,
    pub produced: Seq<ProducedView>,
}


/// What one line `text`, at `line`, does to what has been gathered.
#[verifier::opaque]
pub open spec fn parse_line(dir: Seq<u8>, entries: Seq<Entry>, st: ParseView, line: usize, text: Seq<char>) -> Result<ParseView, ErrView> {
    match index_of(text, '\t') {
        None => Err(ErrView::MalformedRow { line }),
        Some(t) => {
            let prefix = text.take(t);
            let rest = text.skip(t + 1);
            if prefix.len() == 0 {
                if rest.len() > 0 && rest.last() == '/' {
                    Err(ErrView::DirectoryCreate { line, name: rest })
                } else {
                    match child_path_spec(dir, rest) {
                        Err(f) => Err(ErrView::IllegalName { line, name: rest, fault: f }),
                        Ok(p) => Ok(ParseView {
                            produced: st.produced.push(ProducedView { line, origin: None, name: rest }),
                            creates: st.creates.push(OpView::Create { path: p }),
                            ..st
                        }),
                    }
                }
            } else {
                match parse_usize_spec(prefix) {
                    None => Err(ErrView::MalformedRow { line }),
                    Some(id) => if id >= entries.len() {
                        Err(ErrView::UnknownRow { line, id })
                    } else if entries[id as int].kind == EntryKind::Parent {
                        Err(ErrView::ParentRow { line })
                    } else if st.present[id as int] {
                        Err(ErrView::DuplicateRow { line, id })
                    } else {
                        let e = entries[id as int];
                        let kept = ParseView { present: st.present.update(id as int, true), ..st };
                        if rest == row_text_of(e.name@, e.kind) {
                            Ok(kept)
                        } else if !valid_utf8(e.name@) {
                            Err(ErrView::NonUtf8Rename { line, shown: lossy_text(e.name@) })
                        } else {
                            let name = if rest.len() > 0 && rest.last() == '/' { rest.drop_last() } else { rest };
                            if name == decode_utf8(e.name@) {
                                Ok(kept)
                            } else {
                                match child_path_spec(dir, name) {
                                    Err(f) => Err(ErrView::IllegalName { line, name, fault: f }),
                                    Ok(to) => Ok(ParseView {
                                        produced: kept.produced.push(ProducedView { line, origin: Some(id), name }),
                                        renames: kept.renames.push(OpView::Rename { from: e.path@, to }),
                                        ..kept
                                    }),
                                }
                            }
                        }
                    },
                }
            }
        },
    }
}

/// Reading the first lines, in order; the first refusal wins.
pub open spec fn parse_lines(dir: Seq<u8>, entries: Seq<Entry>, lines: Seq<Seq<char>>) -> Result<ParseView, ErrView>
    decreases lines.len(),
{
    if lines.len() == 0 {
        Ok(ParseView {
            present: Seq::new(entries.len(), |i: int| false),
            renames: Seq::empty(),
            creates: Seq::empty(),
            produced: Seq::empty(),
        })
    } else {
        match parse_lines(dir, entries, lines.drop_last()) {
            Err(e) => Err(e),
            Ok(st) => parse_line(dir, entries, st, (lines.len() - 1) as usize, lines.last()),
        }
    }
}

pub open spec fn ops_view(v: Seq<Operation>) -> Seq<OpView> {
    Seq::new(v.len(), |i: int| v[i].view())
}

spec fn produced_view(v: Seq<Produced>) -> Seq<ProducedView> {
    Seq::new(v.len(), |i: int| v[i].view())
}

spec fn state_view(present: Seq<bool>, renames: Seq<Operation>, creates: Seq<Operation>, produced: Seq<Produced>) -> ParseView {
    ParseView {
        present,
        renames: ops_view(renames),
        creates: ops_view(creates),
        produced: produced_view(produced),
    }
}


/// A copy of `v`.
fn copy_bytes(v: &[u8]) -> (r: Vec<u8>)
    ensures
        r@ == v@,
{
    let r = crate::text::slice_bytes(v, 0, v.len());
    assert(r@ =~= v@);
    r
}

/// Reads one buffer line into what has been gathered.
#[verifier::rlimit(40)]
fn parse_one(
    dir: &[u8],
    entries: &[Entry],
    present: &mut Vec<bool>,
    renames: &mut Vec<Operation>,
    creates: &mut Vec<Operation>,
    produced: &mut Vec<Produced>,
    line: usize,
    text: &String,
) -> (r: Result<(), EditError>)
    requires
        old(present)@.len() == entries@.len(),
    ensures
        match parse_line(dir@, entries@, state_view(old(present)@, old(renames)@, old(creates)@, old(produced)@), line, text@) {
            Ok(st) => r is Ok && state_view(final(present)@, final(renames)@, final(creates)@, final(produced)@) == st,
            Err(e) => r matches Err(x) && x.view() == e,
        },
        final(present)@.len() == entries@.len(),
{
    let ghost st = state_view(present@, renames@, creates@, produced@);
    proof {
        reveal(parse_line);
    }
    let cs = chars_of(text.as_str());
    let t = match find_char(cs.as_slice(), 0, '\t') {
        None => {
            assert(!text@.contains('\t')) by {
                if text@.contains('\t') {
                    let k = choose|k: int| 0 <= k < text@.len() && text@[k] == '\t';
                    assert(cs@[k] == '\t');
                }
            }
            return Err(EditError::MalformedRow { line });
        },
        Some(t) => t,
    };
    proof { lemma_index_of(text@, '\t', t as int); }
    let prefix = slice_chars(cs.as_slice(), 0, t);
    let rest_chars = slice_chars(cs.as_slice(), t + 1, cs.len());
    assert(prefix@ =~= text@.take(t as int));
    assert(rest_chars@ =~= text@.skip(t + 1));
    let rest = string_of(rest_chars.as_slice());
    if prefix.len() == 0 {
        if rest_chars.len() > 0 && rest_chars[rest_chars.len() - 1] == '/' {
            return Err(EditError::DirectoryCreate { line, name: rest });
        }
        let path = match child_path(dir, rest.as_str()) {
            Err(fault) => {
                return Err(EditError::IllegalName { line, name: rest, fault });
            },
            Ok(p) => p,
        };
        let ghost pv = produced@;
        let ghost cv = creates@;
        produced.push(Produced { line, origin: None, name: rest });
        creates.push(Operation::Create { path });
        assert(produced_view(produced@) =~= produced_view(pv).push(ProducedView { line, origin: None, name: rest_chars@ }));
        assert(ops_view(creates@) =~= ops_view(cv).push(OpView::Create { path: path@ }));
        return Ok(());
    }
    let id = match parse_usize(prefix.as_slice()) {
        None => {
            return Err(EditError::MalformedRow { line });
        },
        Some(id) => id,
    };
    if id >= entries.len() {
        return Err(EditError::UnknownRow { line, id });
    }
    let e = &entries[id];
    assert(*e == entries@[id as int]);
    if e.kind == EntryKind::Parent {
        return Err(EditError::ParentRow { line });
    }
    if present[id] {
        return Err(EditError::DuplicateRow { line, id });
    }
    present.set(id, true);
    let shown = row_text(e);
    if crate::text::str_eq(rest.as_str(), shown.as_str()) {
        return Ok(());
    }
    let current = match string_from_utf8(copy_bytes(e.name.as_slice())) {
        None => {
            return Err(EditError::NonUtf8Rename { line, shown: lossy(e.name.as_slice()) });
        },
        Some(c) => c,
    };
    let name_chars = if rest_chars.len() > 0 && rest_chars[rest_chars.len() - 1] == '/' {
        slice_chars(rest_chars.as_slice(), 0, rest_chars.len() - 1)
    } else {
        slice_chars(rest_chars.as_slice(), 0, rest_chars.len())
    };
    assert(name_chars@ == (if rest_chars@.len() > 0 && rest_chars@.last() == '/' { rest_chars@.drop_last() } else { rest_chars@ }));
    let current_chars = chars_of(current.as_str());
    if crate::text::chars_eq(name_chars.as_slice(), current_chars.as_slice()) {
        return Ok(());
    }
    let name = string_of(name_chars.as_slice());
    let to = match child_path(dir, name.as_str()) {
        Err(fault) => {
            return Err(EditError::IllegalName { line, name, fault });
        },
        Ok(p) => p,
    };
    let ghost pv = produced@;
    let ghost rv = renames@;
    produced.push(Produced { line, origin: Some(id), name });
    renames.push(Operation::Rename { from: copy_bytes(e.path.as_slice()), to });
    assert(produced_view(produced@) =~= produced_view(pv).push(ProducedView { line, origin: Some(id), name: name_chars@ }));
    assert(ops_view(renames@) =~= ops_view(rv).push(OpView::Rename { from: e.path@, to: to@ }));
    Ok(())
}

/// Reads every buffer line, in order; the first refusal wins.
fn parse_all(dir: &[u8], entries: &[Entry], edited: &[String]) -> (r: Result<(Vec<bool>, Vec<Operation>, Vec<Operation>, Vec<Produced>), EditError>)
    ensures
        match parse_lines(dir@, entries@, Seq::new(edited@.len(), |i: int| edited@[i]@)) {
            Ok(st) => r matches Ok(v) && state_view(v.0@, v.1@, v.2@, v.3@) == st,
            Err(e) => r matches Err(x) && x.view() == e,
        },
        r matches Ok(v) ==> v.0@.len() == entries@.len(),
{
    let ghost lines = Seq::new(edited@.len(), |i: int| edited@[i]@);
    let mut present: Vec<bool> = Vec::new();
    let mut k: usize = 0;
    while k < entries.len()
        invariant
            k <= entries@.len(),
            present@.len() == k,
            forall|j: int| 0 <= j < k ==> present@[j] == false,
        decreases entries@.len() - k,
    {
        present.push(false);
        k = k + 1;
    }
    let mut renames: Vec<Operation> = Vec::new();
    let mut creates: Vec<Operation> = Vec::new();
    let mut produced: Vec<Produced> = Vec::new();
    assert(lines.take(0) =~= Seq::<Seq<char>>::empty());
    assert(state_view(present@, renames@, creates@, produced@).present =~= Seq::new(entries@.len(), |i: int| false));
    assert(state_view(present@, renames@, creates@, produced@).renames =~= Seq::<OpView>::empty());
    assert(state_view(present@, renames@, creates@, produced@).creates =~= Seq::<OpView>::empty());
    assert(state_view(present@, renames@, creates@, produced@).produced =~= Seq::<ProducedView>::empty());
    assert(state_view(present@, renames@, creates@, produced@) == ParseView {
        present: Seq::new(entries@.len(), |i: int| false),
        renames: Seq::empty(),
        creates: Seq::empty(),
        produced: Seq::empty(),
    });
    let mut i: usize = 0;
    while i < edited.len()
        invariant
            i <= edited@.len(),
            lines == Seq::new(edited@.len(), |i: int| edited@[i]@),
            present@.len() == entries@.len(),
            parse_lines(dir@, entries@, lines.take(i as int)) == Ok::<ParseView, ErrView>(state_view(present@, renames@, creates@, produced@)),
        decreases edited@.len() - i,
    {
        assert(lines.take(i + 1).drop_last() =~= lines.take(i as int));
        assert(lines.take(i + 1).last() == edited@[i as int]@);
        let res = parse_one(dir, entries, &mut present, &mut renames, &mut creates, &mut produced, i, &edited[i]);
        if let Err(e) = res {
            proof { lemma_parse_error_stays(dir@, entries@, lines, i as int + 1); }
            assert(lines.take(lines.len() as int) =~= lines);
            return Err(e);
        }
        i = i + 1;
    }
    assert(lines.take(edited@.len() as int) =~= lines);
    Ok((present, renames, creates, produced))
}

/// Once a line is refused, every longer run of lines is refused the same way.
proof fn lemma_parse_error_stays(dir: Seq<u8>, entries: Seq<Entry>, lines: Seq<Seq<char>>, m: int)
    requires
        0 <= m <= lines.len(),
        parse_lines(dir, entries, lines.take(m)) is Err,
    ensures
        parse_lines(dir, entries, lines) == parse_lines(dir, entries, lines.take(m)),
    decreases lines.len() - m,
{
    if m < lines.len() {
        assert(lines.take(m + 1).drop_last() =~= lines.take(m));
        lemma_parse_error_stays(dir, entries, lines, m + 1);
    } else {
        assert(lines.take(m) =~= lines);
    }
}

// ---- collisions

/// Whether entry `k` already holds the name `p` produces — other than the
/// entry `p` renames away from, and never the `../` row.
pub open spec fn collides(eq: NameEquivalence, entries: Seq<Entry>, p: ProducedView, k: int) -> bool {
    &&& Some(k as usize) != p.origin
    &&& entries[k].kind != EntryKind::Parent
    &&& folds_spec(eq, entries[k].name@, p.name)
}

/// The first of the first `n` entries that `p` collides with.
pub open spec fn first_colliding(eq: NameEquivalence, entries: Seq<Entry>, p: ProducedView, n: int) -> Option<int>
    decreases n,
{
    if n <= 0 {
        None
    } else {
        match first_colliding(eq, entries, p, n - 1) {
            Some(k) => Some(k),
            None => if collides(eq, entries, p, n - 1) { Some(n - 1) } else { None },
        }
    }
}

/// The first of the first `m` produced names that collides with an entry,
/// and the entry.
pub open spec fn first_collision(eq: NameEquivalence, entries: Seq<Entry>, produced: Seq<ProducedView>, m: int) -> Option<(int, int)>
    decreases m,
{
    if m <= 0 {
        None
    } else {
        match first_collision(eq, entries, produced, m - 1) {
            Some(x) => Some(x),
            None => match first_colliding(eq, entries, produced[m - 1], entries.len() as int) {
                Some(k) => Some((m - 1, k)),
                None => None,
            },
        }
    }
}

/// The first of the first `j` produced names that is one name with the
/// `i`th.
pub open spec fn first_earlier(eq: NameEquivalence, produced: Seq<ProducedView>, i: int, j: int) -> Option<int>
    decreases j,
{
    if j <= 0 {
        None
    } else {
        match first_earlier(eq, produced, i, j - 1) {
            Some(k) => Some(k),
            None => if folds_spec(eq, encode_utf8(produced[j - 1].name), produced[i].name) { Some(j - 1) } else { None },
        }
    }
}

/// The first of the first `m` produced names that repeats an earlier one,
/// and the earlier one.
pub open spec fn first_duplicate(eq: NameEquivalence, produced: Seq<ProducedView>, m: int) -> Option<(int, int)>
    decreases m,
{
    if m <= 0 {
        None
    } else {
        match first_duplicate(eq, produced, m - 1) {
            Some(x) => Some(x),
            None => match first_earlier(eq, produced, m - 1, m - 1) {
                Some(j) => Some((m - 1, j)),
                None => None,
            },
        }
    }
}

fn find_colliding(eq: NameEquivalence, entries: &[Entry], p: &Produced) -> (r: Option<usize>)
    ensures
        match r {
            Some(x) => x < entries@.len() && first_colliding(eq, entries@, p.view(), entries@.len() as int) == Some(x as int),
            None => first_colliding(eq, entries@, p.view(), entries@.len() as int) is None,
        },
{
    let mut k: usize = 0;
    while k < entries.len()
        invariant
            k <= entries@.len(),
            first_colliding(eq, entries@, p.view(), k as int) is None,
        decreases entries@.len() - k,
    {
        assert(first_colliding(eq, entries@, p.view(), k + 1) == (if collides(eq, entries@, p.view(), k as int) { Some(k as int) } else { None }));
        let e = &entries[k];
        assert(*e == entries@[k as int]);
        let not_origin = match p.origin {
            Some(o) => o != k,
            None => true,
        };
        if not_origin && e.kind != EntryKind::Parent && folds_together(eq, e.name.as_slice(), p.name.as_str()) {
            proof { lemma_first_colliding_stays(eq, entries@, p.view(), k + 1, entries@.len() as int); }
            return Some(k);
        }
        k = k + 1;
    }
    None
}

proof fn lemma_first_colliding_stays(eq: NameEquivalence, entries: Seq<Entry>, p: ProducedView, m: int, n: int)
    requires
        0 <= m <= n,
        first_colliding(eq, entries, p, m) is Some,
    ensures
        first_colliding(eq, entries, p, n) == first_colliding(eq, entries, p, m),
    decreases n - m,
{
    if n > m {
        lemma_first_colliding_stays(eq, entries, p, m, n - 1);
    }
}

proof fn lemma_first_collision_stays(eq: NameEquivalence, entries: Seq<Entry>, produced: Seq<ProducedView>, m: int, n: int)
    requires
        0 <= m <= n,
        first_collision(eq, entries, produced, m) is Some,
    ensures
        first_collision(eq, entries, produced, n) == first_collision(eq, entries, produced, m),
    decreases n - m,
{
    if n > m {
        lemma_first_collision_stays(eq, entries, produced, m, n - 1);
    }
}

proof fn lemma_first_earlier_stays(eq: NameEquivalence, produced: Seq<ProducedView>, i: int, m: int, n: int)
    requires
        0 <= m <= n,
        first_earlier(eq, produced, i, m) is Some,
    ensures
        first_earlier(eq, produced, i, n) == first_earlier(eq, produced, i, m),
    decreases n - m,
{
    if n > m {
        lemma_first_earlier_stays(eq, produced, i, m, n - 1);
    }
}

proof fn lemma_first_duplicate_stays(eq: NameEquivalence, produced: Seq<ProducedView>, m: int, n: int)
    requires
        0 <= m <= n,
        first_duplicate(eq, produced, m) is Some,
    ensures
        first_duplicate(eq, produced, n) == first_duplicate(eq, produced, m),
    decreases n - m,
{
    if n > m {
        lemma_first_duplicate_stays(eq, produced, m, n - 1);
    }
}

/// Refuses a produced name that an entry already holds.
fn check_collisions(eq: NameEquivalence, entries: &[Entry], produced: &Vec<Produced>) -> (r: Result<(), EditError>)
    ensures
        match first_collision(eq, entries@, produced_view(produced@), produced@.len() as int) {
            Some((i, k)) => r matches Err(e) && e.view() == ErrView::NameTaken {
                line: produced_view(produced@)[i].line,
                name: produced_view(produced@)[i].name,
                existing: lossy_text(entries@[k].name@),
            },
            None => r is Ok,
        },
{
    let ghost pv = produced_view(produced@);
    let mut i: usize = 0;
    while i < produced.len()
        invariant
            i <= produced@.len(),
            pv == produced_view(produced@),
            first_collision(eq, entries@, pv, i as int) is None,
        decreases produced@.len() - i,
    {
        assert(pv[i as int] == produced@[i as int].view());
        match find_colliding(eq, entries, &produced[i]) {
            Some(k) => {
                assert(first_collision(eq, entries@, pv, i + 1) == Some((i as int, k as int)));
                proof { lemma_first_collision_stays(eq, entries@, pv, i + 1, produced@.len() as int); }
                let existing = lossy(entries[k].name.as_slice());
                let name = String::from_str(produced[i].name.as_str());
                return Err(EditError::NameTaken { line: produced[i].line, name, existing });
            },
            None => {},
        }
        i = i + 1;
    }
    Ok(())
}

fn find_earlier(eq: NameEquivalence, produced: &Vec<Produced>, i: usize) -> (r: Option<usize>)
    requires
        i < produced@.len(),
    ensures
        match r {
            Some(x) => x < i && first_earlier(eq, produced_view(produced@), i as int, i as int) == Some(x as int),
            None => first_earlier(eq, produced_view(produced@), i as int, i as int) is None,
        },
{
    let ghost pv = produced_view(produced@);
    let mut j: usize = 0;
    while j < i
        invariant
            j <= i < produced@.len(),
            pv == produced_view(produced@),
            first_earlier(eq, pv, i as int, j as int) is None,
        decreases i - j,
    {
        assert(pv[j as int] == produced@[j as int].view());
        assert(pv[i as int] == produced@[i as int].view());
        let seen = bytes_of(produced[j].name.as_str());
        if folds_together(eq, seen.as_slice(), produced[i].name.as_str()) {
            assert(first_earlier(eq, pv, i as int, j + 1) == Some(j as int));
            proof { lemma_first_earlier_stays(eq, pv, i as int, j + 1, i as int); }
            return Some(j);
        }
        j = j + 1;
    }
    None
}

/// Refuses two produced names that are one name.
fn check_duplicates(eq: NameEquivalence, produced: &Vec<Produced>) -> (r: Result<(), EditError>)
    ensures
        match first_duplicate(eq, produced_view(produced@), produced@.len() as int) {
            Some((i, j)) => r matches Err(e) && e.view() == ErrView::DuplicateName {
                name: produced_view(produced@)[i].name,
                other: produced_view(produced@)[j].name,
            },
            None => r is Ok,
        },
{
    let ghost pv = produced_view(produced@);
    let mut i: usize = 0;
    while i < produced.len()
        invariant
            i <= produced@.len(),
            pv == produced_view(produced@),
            first_duplicate(eq, pv, i as int) is None,
        decreases produced@.len() - i,
    {
        match find_earlier(eq, produced, i) {
            Some(j) => {
                assert(first_duplicate(eq, pv, i + 1) == Some((i as int, j as int)));
                proof { lemma_first_duplicate_stays(eq, pv, i + 1, produced@.len() as int); }
                let name = String::from_str(produced[i].name.as_str());
                let other = String::from_str(produced[j].name.as_str());
                return Err(EditError::DuplicateName { name, other });
            },
            None => {},
        }
        i = i + 1;
    }
    Ok(())
}

// ---- deletes

/// The deletes inferred from the first `n` entries, and how many rows the
/// reader removed that produce none because the listing was capped: every
/// non-parent entry no line named is a delete of its recorded path, with its
/// recorded identity — or, when the listing was truncated, a suppressed one.
pub open spec fn deletes_spec(read: Listing, present: Seq<bool>, n: int) -> (Seq<OpView>, nat)
    decreases n,
{
    if n <= 0 {
        (Seq::empty(), 0)
    } else {
        let (d, s) = deletes_spec(read, present, n - 1);
        let e = read.entries_spec()[n - 1];
        if present[n - 1] || e.kind == EntryKind::Parent {
            (d, s)
        } else if read.truncated_spec() {
            (d, s + 1)
        } else {
            (d.push(OpView::Delete { path: e.path@, identity: read.identity_spec(n - 1) }), s)
        }
    }
}

fn infer_deletes(read: &Listing, present: &Vec<bool>) -> (r: (Vec<Operation>, usize))
    requires
        present@.len() == read.entries_spec().len(),
    ensures
        (ops_view(r.0@), r.1 as nat) == deletes_spec(*read, present@, read.entries_spec().len() as int),
{
    let entries = read.entries();
    let truncated = read.truncated();
    let mut deletes: Vec<Operation> = Vec::new();
    let mut suppressed: usize = 0;
    let mut i: usize = 0;
    while i < entries.len()
        invariant
            i <= entries@.len(),
            entries@ == read.entries_spec(),
            truncated == read.truncated_spec(),
            present@.len() == entries@.len(),
            suppressed <= i,
            (ops_view(deletes@), suppressed as nat) == deletes_spec(*read, present@, i as int),
        decreases entries@.len() - i,
    {
        let e = &entries[i];
        assert(*e == entries@[i as int]);
        let ghost before = deletes@;
        if present[i] || e.kind == EntryKind::Parent {
        } else if truncated {
            suppressed = suppressed + 1;
        } else {
            deletes.push(Operation::Delete { path: copy_bytes(e.path.as_slice()), identity: read.identity(i) });
            assert(ops_view(deletes@) =~= ops_view(before).push(OpView::Delete { path: e.path@, identity: read.identity_spec(i as int) }));
        }
        i = i + 1;
    }
    (deletes, suppressed)
}

// ---- the plan

/// An [`EditPlan`], as a value.
pub ghost struct PlanView {
    pub dir: Seq<u8>,
    pub dir_identity: Option<FileId>,
    /// Renames, then creates, then deletes: storage order is apply order.
    pub ops: Seq<OpView>,
    /// Index of the first delete; `ops.len()` when there is none.
    pub first_delete: nat,
    /// Rows removed that produced no delete, because the listing was capped.
    pub suppressed: nat,
}

/// What [`EditPlan::diff`] makes of `read` and the buffer lines `lines`.
pub open spec fn diff_spec(read: Listing, lines: Seq<Seq<char>>) -> Result<PlanView, ErrView> {
    let dir = read.dir_spec();
    let entries = read.entries_spec();
    let eq = read.equivalence_spec();
    match first_inconsistent(dir, entries, entries.len() as int) {
        Some(k) => Err(ErrView::InconsistentListing { name: inconsistency_name(entries[k]) }),
        None => match parse_lines(dir, entries, lines) {
            Err(e) => Err(e),
            Ok(st) => match first_collision(eq, entries, st.produced, st.produced.len() as int) {
                Some((i, k)) => Err(ErrView::NameTaken {
                    line: st.produced[i].line,
                    name: st.produced[i].name,
                    existing: lossy_text(entries[k].name@),
                }),
                None => match first_duplicate(eq, st.produced, st.produced.len() as int) {
                    Some((i, j)) => Err(ErrView::DuplicateName { name: st.produced[i].name, other: st.produced[j].name }),
                    None => {
                        let (dels, sup) = deletes_spec(read, st.present, entries.len() as int);
                        Ok(PlanView {
                            dir,
                            dir_identity: read.dir_identity_spec(),
                            ops: st.renames + st.creates + dels,
                            first_delete: st.renames.len() + st.creates.len(),
                            suppressed: sup,
                        })
                    },
                },
            },
        },
    }
}

/// What an edited buffer asks the filesystem to do, in the order it will be
/// done: renames, then creates, then deletes.
#[derive(Debug, Clone, PartialEq, Eq)]
pub struct EditPlan {
    dir: Vec<u8>,
    dir_identity: Option<FileId>,
    ops: Vec<Operation>,
    first_delete: usize,
    suppressed_deletes: usize,
}

impl View for EditPlan {
    type V = PlanView;

    closed spec fn view(&self) -> PlanView {
        PlanView {
            dir: self.dir@,
            dir_identity: self.dir_identity,
            ops: ops_view(self.ops@),
            first_delete: self.first_delete as nat,
            suppressed: self.suppressed_deletes as nat,
        }
    }
}

impl EditPlan {
    /// Whether this plan's delete boundary lies inside its operations.
    pub closed spec fn wf(&self) -> bool {
        self.first_delete <= self.ops@.len()
    }

    /// The difference between `read` as it was listed and `edited` as the
    /// reader left it — `"{id}\t{text}"` for a row seeded from
    /// `read.entries()[id]`, `"\t{text}"` for a row the reader added, and a
    /// removed row simply absent. Touches no filesystem.
    pub fn diff(read: &Listing, edited: &[String]) -> (r: Result<EditPlan, EditError>)
        ensures
            match diff_spec(*read, Seq::new(edited@.len(), |i: int| edited@[i]@)) {
                Ok(p) => r matches Ok(plan) && plan@ == p && plan.wf(),
                Err(e) => r matches Err(x) && x.view() == e,
            },
    {
        let dir = read.dir();
        let entries = read.entries();
        check_listing(dir, entries)?;
        let (present, renames, creates, produced) = parse_all(dir, entries, edited)?;
        let eq = read.equivalence();
        check_collisions(eq, entries, &produced)?;
        check_duplicates(eq, &produced)?;
        let (deletes, suppressed_deletes) = infer_deletes(read, &present);
        let mut ops = renames;
        let mut creates = creates;
        let mut deletes = deletes;
        let ghost rv = ops_view(ops@);
        let ghost cv = ops_view(creates@);
        let ghost dv = ops_view(deletes@);
        ops.append(&mut creates);
        let first_delete = ops.len();
        assert(ops_view(ops@) =~= rv + cv);
        ops.append(&mut deletes);
        assert(ops_view(ops@) =~= rv + cv + dv);
        Ok(EditPlan {
            dir: copy_bytes(dir),
            dir_identity: read.dir_identity(),
            ops,
            first_delete,
            suppressed_deletes,
        })
    }
}


// ---- how a plan reads

/// The last component of `p`, for a message: lossy, and the whole path when
/// it has no final name.
pub open spec fn display_name_spec(p: Seq<u8>) -> Seq<char> {
    match file_name(p) {
        Some(n) => lossy_text(n),
        None => lossy_text(p),
    }
}

/// The last component of `path`, for a message. Nothing acts on the result.
pub fn display_name(path: &[u8]) -> (s: String)
    ensures
        s@ == display_name_spec(path@),
{
    match file_name_of(path) {
        Some(n) => lossy(n.as_slice()),
        None => lossy(path),
    }
}

/// How an operation reads in a summary.
pub open spec fn op_text(o: OpView) -> Seq<char> {
    match o {
        OpView::Rename { from, to } => "rename "@ + display_name_spec(from) + " to "@ + display_name_spec(to),
        OpView::Create { path } => "create "@ + display_name_spec(path),
        OpView::Delete { path, .. } => "delete "@ + display_name_spec(path),
    }
}

impl Operation {
    /// How this operation reads in a summary: `rename a.md to b.md`,
    /// `create c.md`, `delete d.md`.
    pub fn describe(&self) -> (s: String)
        ensures
            s@ == op_text(self.view()),
    {
        match self {
            Operation::Rename { from, to } => {
                let mut s = String::from_str("rename ");
                push_str(&mut s, display_name(from.as_slice()).as_str());
                push_str(&mut s, " to ");
                push_str(&mut s, display_name(to.as_slice()).as_str());
                s
            },
            Operation::Create { path } => {
                let mut s = String::from_str("create ");
                push_str(&mut s, display_name(path.as_slice()).as_str());
                s
            },
            Operation::Delete { path, .. } => {
                let mut s = String::from_str("delete ");
                push_str(&mut s, display_name(path.as_slice()).as_str());
                s
            },
        }
    }
}

/// `count` of `noun`, pluralised with an `s`.
pub open spec fn count_of_spec(count: nat, noun: Seq<char>) -> Seq<char> {
    if count == 1 {
        "1 "@ + noun
    } else {
        decimal(count) + " "@ + noun + "s"@
    }
}

/// `count` of `noun`, pluralised: `1 rename`, `3 renames`, `0 creates`.
pub fn count_of(count: usize, noun: &str) -> (s: String)
    ensures
        s@ == count_of_spec(count as nat, noun@),
{
    if count == 1 {
        let mut s = String::from_str("1 ");
        push_str(&mut s, noun);
        s
    } else {
        let mut s = String::new();
        push_decimal(&mut s, count as u128);
        push_str(&mut s, " ");
        push_str(&mut s, noun);
        push_str(&mut s, "s");
        assert(s@ =~= decimal(count as nat) + " "@ + noun@ + "s"@);
        s
    }
}

/// How many renames `ops` holds.
pub open spec fn rename_count(ops: Seq<OpView>) -> nat
    decreases ops.len(),
{
    if ops.len() == 0 {
        0
    } else {
        rename_count(ops.drop_last()) + if ops.last() is Rename { 1nat } else { 0nat }
    }
}

proof fn lemma_rename_count_bound(ops: Seq<OpView>)
    ensures
        rename_count(ops) <= ops.len(),
    decreases ops.len(),
{
    if ops.len() > 0 {
        lemma_rename_count_bound(ops.drop_last());
    }
}

/// The display names of the targets of `ops`.
pub open spec fn target_names(ops: Seq<OpView>) -> Seq<Seq<char>> {
    Seq::new(ops.len(), |i: int| display_name_spec(op_target(ops[i])))
}

/// How many of `n` doomed names the prompt spells out.
pub open spec fn named_count(n: nat) -> nat {
    if n <= MAX_NAMED_DELETES { n } else { MAX_NAMED_DELETES as nat }
}

/// `DELETE n (a, b, … and k more)`.
pub open spec fn delete_clause(deletes: Seq<OpView>) -> Seq<char> {
    let named = named_count(deletes.len());
    let rest = (deletes.len() - named) as nat;
    "DELETE "@ + decimal(deletes.len()) + " ("@ + join_seq(target_names(deletes.take(named as int)), ", "@)
        + (if rest > 0 { " and "@ + decimal(rest) + " more"@ } else { Seq::empty() }) + ")"@
}

/// The clauses of a confirmation: renames, creates, deletes, each only when
/// there is one.
pub open spec fn confirmation_parts(p: PlanView) -> Seq<Seq<char>> {
    let renames = rename_count(p.ops.take(p.first_delete as int));
    let creates = (p.first_delete - renames) as nat;
    let deletes = p.ops.skip(p.first_delete as int);
    (if renames > 0 { seq![count_of_spec(renames, "rename"@)] } else { Seq::empty() })
        + (if creates > 0 { seq![count_of_spec(creates, "create"@)] } else { Seq::empty() })
        + (if deletes.len() > 0 { seq![delete_clause(deletes)] } else { Seq::empty() })
}

/// The note on removed rows a capped listing cannot act on.
pub open spec fn suppressed_clause(n: nat) -> Seq<char> {
    "  ("@ + decimal(n) + " removed "@ + (if n == 1 { "row"@ } else { "rows"@ })
        + " ignored: the listing was capped, so absence cannot mean removal)"@
}

/// The sentence a reader must accept before a plan runs.
pub open spec fn confirmation_spec(p: PlanView) -> Seq<char> {
    let parts = confirmation_parts(p);
    (if parts.len() == 0 {
        "apply nothing? [y/n]"@
    } else {
        "apply "@ + join_seq(parts, ", "@) + "? [y/n]"@
    }) + (if p.suppressed > 0 { suppressed_clause(p.suppressed) } else { Seq::empty() })
}

fn delete_text(deletes: &[Operation]) -> (s: String)
    requires
        deletes@.len() > 0,
    ensures
        s@ == delete_clause(ops_view(deletes@)),
{
    let n = deletes.len();
    let named = if n <= MAX_NAMED_DELETES { n } else { MAX_NAMED_DELETES };
    let mut names: Vec<String> = Vec::new();
    let mut i: usize = 0;
    while i < named
        invariant
            i <= named,
            named <= n,
            n == deletes@.len(),
            names@.len() == i,
            strings_view(names@) =~= target_names(ops_view(deletes@).take(i as int)),
        decreases named - i,
    {
        let t = deletes[i].target();
        let d = display_name(t);
        let ghost before = names@;
        names.push(d);
        proof {
            let want = target_names(ops_view(deletes@).take(i + 1));
            assert(ops_view(deletes@)[i as int] == deletes@[i as int].view());
            assert(want[i as int] == d@);
            assert forall|k: int| 0 <= k < i implies strings_view(names@)[k] == want[k] by {
                assert(names@[k] == before[k]);
                assert(strings_view(before)[k] == target_names(ops_view(deletes@).take(i as int))[k]);
            }
            assert(strings_view(names@) =~= want);
        }
        i = i + 1;
    }
    let mut s = String::from_str("DELETE ");
    push_decimal(&mut s, n as u128);
    push_str(&mut s, " (");
    let joined = join_strings(&names, ", ");
    push_str(&mut s, joined.as_str());
    let rest = n - named;
    if rest > 0 {
        push_str(&mut s, " and ");
        push_decimal(&mut s, rest as u128);
        push_str(&mut s, " more");
    }
    push_str(&mut s, ")");
    assert(ops_view(deletes@).len() == n);
    s
}

fn suppressed_text(n: usize) -> (s: String)
    ensures
        s@ == suppressed_clause(n as nat),
{
    let mut s = String::from_str("  (");
    push_decimal(&mut s, n as u128);
    push_str(&mut s, " removed ");
    if n == 1 {
        push_str(&mut s, "row");
    } else {
        push_str(&mut s, "rows");
    }
    push_str(&mut s, " ignored: the listing was capped, so absence cannot mean removal)");
    s
}

impl EditPlan {
    /// The directory every operation in this plan acts inside.
    pub fn dir(&self) -> (d: &[u8])
        ensures
            d@ == self@.dir,
    {
        self.dir.as_slice()
    }

    /// Every operation, in apply order.
    pub fn operations(&self) -> (ops: &[Operation])
        ensures
            ops_view(ops@) == self@.ops,
    {
        self.ops.as_slice()
    }

    /// The operations that cannot be taken back: the deletes, which are
    /// stored last.
    pub fn destructive(&self) -> (ops: &[Operation])
        requires
            self.wf(),
        ensures
            ops_view(ops@) == self@.ops.skip(self@.first_delete as int),
    {
        let (_, tail) = self.ops.as_slice().split_at(self.first_delete);
        assert(ops_view(tail@) =~= ops_view(self.ops@).skip(self.first_delete as int));
        tail
    }

    /// How many rows the reader removed that this plan will not act on,
    /// because the listing was truncated.
    pub fn suppressed_deletes(&self) -> (n: usize)
        ensures
            n == self@.suppressed,
    {
        self.suppressed_deletes
    }

    /// Whether this plan would do nothing at all.
    pub fn is_empty(&self) -> (r: bool)
        ensures
            r == (self@.ops.len() == 0),
    {
        self.ops.len() == 0
    }

    /// How many operations this plan holds.
    pub fn len(&self) -> (n: usize)
        ensures
            n == self@.ops.len(),
    {
        self.ops.len()
    }

    /// The sentence a reader must accept before anything runs: every
    /// delete named (up to [`MAX_NAMED_DELETES`], then counted), the other
    /// operations counted.
    pub fn confirmation(&self) -> (s: String)
        requires
            self.wf(),
        ensures
            s@ == confirmation_spec(self@),
    {
        let (before, deletes) = self.ops.as_slice().split_at(self.first_delete);
        let ghost ops = ops_view(self.ops@);
        assert(ops_view(before@) =~= ops.take(self.first_delete as int));
        assert(ops_view(deletes@) =~= ops.skip(self.first_delete as int));
        let mut renames: usize = 0;
        let mut i: usize = 0;
        while i < before.len()
            invariant
                i <= before@.len(),
                renames == rename_count(ops_view(before@).take(i as int)),
                renames <= i,
            decreases before@.len() - i,
        {
            assert(ops_view(before@).take(i + 1).drop_last() =~= ops_view(before@).take(i as int));
            if let Operation::Rename { .. } = &before[i] {
                renames = renames + 1;
            }
            i = i + 1;
        }
        assert(ops_view(before@).take(before@.len() as int) =~= ops_view(before@));
        let creates = self.first_delete - renames;
        let mut parts: Vec<String> = Vec::new();
        if renames > 0 {
            parts.push(count_of(renames, "rename"));
        }
        if creates > 0 {
            parts.push(count_of(creates, "create"));
        }
        if deletes.len() > 0 {
            parts.push(delete_text(deletes));
        }
        assert(strings_view(parts@) =~= confirmation_parts(self@));
        let mut text = if parts.len() == 0 {
            String::from_str("apply nothing? [y/n]")
        } else {
            let mut t = String::from_str("apply ");
            let joined = join_strings(&parts, ", ");
            push_str(&mut t, joined.as_str());
            push_str(&mut t, "? [y/n]");
            t
        };
        if self.suppressed_deletes > 0 {
            let tail = suppressed_text(self.suppressed_deletes);
            push_str(&mut text, tail.as_str());
        } else {
            assert(text@ =~= text@ + Seq::<char>::empty());
        }
        text
    }
}


// ---- carrying a plan out

/// An operation's outcome as text: `Ok`, or why it failed.
pub open spec fn outcome_view(r: Result<(), String>) -> Result<(), Seq<char>> {
    match r {
        Ok(()) => Ok(()),
        Err(e) => Err(e@),
    }
}

/// An operation's outcome, as a value: `Ok`, or the failure.
pub open spec fn io_outcome(r: Result<(), IoFailure>) -> Result<(), FailureView> {
    match r {
        Ok(()) => Ok(()),
        Err(e) => Err(e@),
    }
}

/// Each operation paired with its outcome, as values.
pub open spec fn results_view(v: Seq<(Operation, Result<(), IoFailure>)>) -> Seq<(OpView, Result<(), FailureView>)> {
    Seq::new(v.len(), |i: int| (v[i].0.view(), io_outcome(v[i].1)))
}

/// What an operation the apply never reached reports.
pub open spec fn not_attempted_text() -> Seq<char> {
    "not attempted: an earlier operation failed"@
}

/// The failure an operation the apply never reached reports.
pub open spec fn not_attempted_failure() -> FailureView {
    FailureView { kind: IoKind::Other, raw_os_error: None, message: not_attempted_text() }
}

/// The error an operation the apply never reached reports.
pub fn not_attempted() -> (f: IoFailure)
    ensures
        f@ == not_attempted_failure(),
{
    IoFailure { kind: IoKind::Other, raw_os_error: None, message: String::from_str("not attempted: an earlier operation failed") }
}

/// `f`, field by field.
fn copy_failure(f: &IoFailure) -> (r: IoFailure)
    ensures
        r@ == f@,
{
    IoFailure { kind: f.kind, raw_os_error: f.raw_os_error, message: f.message.clone() }
}

/// An apply in progress, as a value: the plan's operations, where its
/// deletes start, the outcome of every operation settled so far, and how
/// many of them were run — always a prefix, since operations run in storage
/// order and nothing runs after one is settled unrun.
pub ghost struct ApplyView {
    pub ops: Seq<OpView>,
    pub first_delete: nat,
    pub results: Seq<(OpView, Result<(), FailureView>)>,
    pub ran: nat,
}

/// The outcomes once the operation at `v.results.len()` came back
/// `outcome`. A failure among the renames and creates settles every later
/// operation, each delete included, as not attempted; any other outcome
/// settles just that operation.
pub open spec fn after_outcome(v: ApplyView, outcome: Result<(), FailureView>) -> Seq<(OpView, Result<(), FailureView>)> {
    let i = v.results.len() as int;
    let settled = v.results.push((v.ops[i], outcome));
    if i < v.first_delete && outcome is Err {
        settled + Seq::new((v.ops.len() - i - 1) as nat, |k: int| (v.ops[i + 1 + k], Err(not_attempted_failure())))
    } else {
        settled
    }
}

/// A plan being carried out, one operation at a time.
///
/// The filesystem calls are the caller's: [`Applying::next`] names the
/// operation to run, [`Applying::record`] takes its outcome back. Storage
/// order is run order, so every rename and create runs before any delete;
/// a failure among those settles the rest unrun, and the deletes, once
/// reached, are each run on their own.
pub struct Applying {
    ops: Vec<Operation>,
    first_delete: usize,
    results: Vec<(Operation, Result<(), IoFailure>)>,
    ran: usize,
}

impl View for Applying {
    type V = ApplyView;

    closed spec fn view(&self) -> ApplyView {
        ApplyView {
            ops: ops_view(self.ops@),
            first_delete: self.first_delete as nat,
            results: results_view(self.results@),
            ran: self.ran as nat,
        }
    }
}

/// What an apply that stands at `v` keeps true: each outcome belongs to the
/// operation at its own index; once an operation is settled unrun, all are;
/// and a failed rename or create is the last operation run, with everything
/// after it settled as not attempted.
pub open spec fn apply_consistent(v: ApplyView) -> bool {
    &&& v.first_delete <= v.ops.len()
    &&& v.results.len() <= v.ops.len()
    &&& v.ran <= v.results.len()
    &&& v.ran < v.results.len() ==> v.results.len() == v.ops.len()
    &&& forall|i: int| 0 <= i < v.results.len() ==> (#[trigger] v.results[i]).0 == v.ops[i]
    &&& forall|i: int| 0 <= i < v.ran && i < v.first_delete && (#[trigger] v.results[i]).1 is Err
        ==> v.ran == i + 1 && v.results.len() == v.ops.len()
            && forall|j: int| i < j < v.ops.len() ==> (#[trigger] v.results[j]).1 == Err::<(), FailureView>(not_attempted_failure())
}

impl Applying {
    /// Whether this apply is one [`EditPlan::apply`] and [`Applying::record`]
    /// can produce.
    pub closed spec fn wf(&self) -> bool {
        apply_consistent(self@)
    }

    /// The operation to run next, in storage order; `None` once every
    /// operation is settled.
    pub fn next(&self) -> (op: Option<&Operation>)
        requires
            self.wf(),
        ensures
            match op {
                Some(o) => self@.results.len() < self@.ops.len() && o.view() == self@.ops[self@.results.len() as int],
                None => self@.results.len() == self@.ops.len(),
            },
    {
        if self.results.len() < self.ops.len() {
            Some(&self.ops[self.results.len()])
        } else {
            None
        }
    }

    /// Whether every operation is settled.
    pub fn is_finished(&self) -> (r: bool)
        requires
            self.wf(),
        ensures
            r == (self@.results.len() == self@.ops.len()),
    {
        self.results.len() == self.ops.len()
    }

    /// Takes back the outcome of the operation [`Applying::next`] named.
    pub fn record(&mut self, outcome: Result<(), IoFailure>)
        requires
            old(self).wf(),
            old(self)@.results.len() < old(self)@.ops.len(),
        ensures
            final(self).wf(),
            final(self)@.ops == old(self)@.ops,
            final(self)@.first_delete == old(self)@.first_delete,
            final(self)@.results == after_outcome(old(self)@, io_outcome(outcome)),
            final(self)@.ran == old(self)@.ran + 1,
    {
        let ghost v = self@;
        assert(apply_consistent(v));
        assert(self.ran <= self.results@.len() && self.results@.len() < self.ops@.len());
        let i = self.results.len();
        let failed = outcome.is_err();
        let op = self.ops[i].duplicate();
        let r = self.ran;
        let total = self.ops.len();
        assert(r < total);
        self.results.push((op, outcome));
        self.ran = r + 1;
        assert(results_view(self.results@) =~= v.results.push((v.ops[i as int], io_outcome(outcome))));
        if i < self.first_delete && failed {
            let mut j: usize = i + 1;
            while j < self.ops.len()
                invariant
                    i < j <= self.ops@.len(),
                    self.ops@ == old(self).ops@,
                    self.first_delete == old(self).first_delete,
                    self.ran == old(self).ran + 1,
                    v == old(self)@,
                    i == v.results.len(),
                    results_view(self.results@) =~= v.results.push((v.ops[i as int], io_outcome(outcome)))
                        + Seq::new((j - i - 1) as nat, |k: int| (v.ops[i + 1 + k], Err(not_attempted_failure()))),
                decreases self.ops@.len() - j,
            {
                let ghost before = results_view(self.results@);
                let next = self.ops[j].duplicate();
                self.results.push((next, Err(not_attempted())));
                assert(results_view(self.results@) =~= before.push((v.ops[j as int], Err(not_attempted_failure()))));
                assert(results_view(self.results@) =~= v.results.push((v.ops[i as int], io_outcome(outcome)))
                    + Seq::new((j + 1 - i - 1) as nat, |k: int| (v.ops[i + 1 + k], Err(not_attempted_failure()))));
                j = j + 1;
            }
        }
        proof {
            let w = self@;
            assert(w.results == after_outcome(v, io_outcome(outcome)));
            assert(v.ran == v.results.len());
            assert forall|a: int| 0 <= a < w.results.len() implies (#[trigger] w.results[a]).0 == w.ops[a] by {
                if a < v.results.len() {
                    assert(w.results[a] == v.results[a]);
                }
            }
            assert forall|a: int| 0 <= a < w.ran && a < w.first_delete && (#[trigger] w.results[a]).1 is Err
                implies w.ran == a + 1 && w.results.len() == w.ops.len()
                    && forall|b: int| a < b < w.ops.len() ==> (#[trigger] w.results[b]).1 == Err::<(), FailureView>(not_attempted_failure()) by {
                if a < v.results.len() {
                    assert(w.results[a] == v.results[a]);
                }
            }
        }
    }

    /// Every operation paired with its outcome, in storage order.
    pub fn results(self) -> (r: Vec<(Operation, Result<(), IoFailure>)>)
        ensures
            results_view(r@) == self@.results,
    {
        self.results
    }
}

/// Once a rename or create has failed, no delete has run or will: the
/// failure was the last operation run, nothing is left to run, and every
/// delete is reported not attempted. The irreversible half of a plan never
/// runs behind a reversible half that did not land.
pub proof fn law_a_failed_rename_or_create_spares_every_delete(run: Applying, i: int)
    requires
        run.wf(),
        0 <= i < run@.ran,
        i < run@.first_delete,
        run@.results[i].1 is Err,
    ensures
        run@.ran <= run@.first_delete,
        run@.results.len() == run@.ops.len(),
        forall|j: int| run@.first_delete <= j < run@.ops.len()
            ==> run@.results[j].1 == Err::<(), FailureView>(not_attempted_failure()),
{
    let v = run@;
    assert(v.results[i].1 is Err);
}

impl EditPlan {
    /// Starts carrying this plan out. A `refusal` — the pre-flight's verdict,
    /// see [`EditPlan::preflight`] — settles every operation with that reason
    /// and runs none of them.
    pub fn apply(&self, refusal: Option<IoFailure>) -> (run: Applying)
        requires
            self.wf(),
        ensures
            run.wf(),
            run@.ops == self@.ops,
            run@.first_delete == self@.first_delete,
            run@.ran == 0,
            match refusal {
                Some(r) => run@.results == Seq::new(self@.ops.len(), |i: int| (self@.ops[i], Err::<(), FailureView>(r@))),
                None => run@.results.len() == 0,
            },
    {
        let mut ops: Vec<Operation> = Vec::new();
        let mut i: usize = 0;
        while i < self.ops.len()
            invariant
                i <= self.ops@.len(),
                ops@.len() == i,
                ops_view(ops@) =~= ops_view(self.ops@).take(i as int),
            decreases self.ops@.len() - i,
        {
            ops.push(self.ops[i].duplicate());
            assert(ops_view(ops@) =~= ops_view(self.ops@).take(i + 1));
            i = i + 1;
        }
        assert(ops_view(self.ops@).take(self.ops@.len() as int) =~= ops_view(self.ops@));
        let mut results: Vec<(Operation, Result<(), IoFailure>)> = Vec::new();
        if let Some(reason) = refusal {
            let mut k: usize = 0;
            while k < ops.len()
                invariant
                    k <= ops@.len(),
                    results@.len() == k,
                    ops_view(ops@) == self@.ops,
                    results_view(results@) =~= Seq::new(k as nat, |a: int| (self@.ops[a], Err::<(), FailureView>(reason@))),
                decreases ops@.len() - k,
            {
                assert(ops_view(ops@)[k as int] == ops@[k as int].view());
                let ghost before = results_view(results@);
                let item = (ops[k].duplicate(), Err(copy_failure(&reason)));
                results.push(item);
                assert(results_view(results@) =~= before.push((self@.ops[k as int], Err::<(), FailureView>(reason@))));
                assert(results_view(results@) =~= Seq::new((k + 1) as nat, |a: int| (self@.ops[a], Err::<(), FailureView>(reason@))));
                k = k + 1;
            }
        }
        Applying { ops, first_delete: self.first_delete, results, ran: 0 }
    }
}


// ---- what an apply did

/// How many outcomes in `rs` are `Ok`.
pub open spec fn ok_count(rs: Seq<(OpView, Result<(), FailureView>)>) -> nat
    decreases rs.len(),
{
    if rs.len() == 0 {
        0
    } else {
        ok_count(rs.drop_last()) + if rs.last().1 is Ok { 1nat } else { 0nat }
    }
}

proof fn lemma_ok_count_bound(rs: Seq<(OpView, Result<(), FailureView>)>)
    ensures
        ok_count(rs) <= rs.len(),
    decreases rs.len(),
{
    if rs.len() > 0 {
        lemma_ok_count_bound(rs.drop_last());
    }
}

/// The index of the first failure among the first `n` outcomes.
pub open spec fn first_failure(rs: Seq<(OpView, Result<(), FailureView>)>, n: int) -> Option<int>
    decreases n,
{
    if n <= 0 {
        None
    } else {
        match first_failure(rs, n - 1) {
            Some(k) => Some(k),
            None => if rs[n - 1].1 is Err { Some(n - 1) } else { None },
        }
    }
}

proof fn lemma_first_failure_is_failure(rs: Seq<(OpView, Result<(), FailureView>)>, n: int)
    requires
        first_failure(rs, n) is Some,
    ensures
        0 <= first_failure(rs, n)->0 < n,
        rs[first_failure(rs, n)->0].1 is Err,
    decreases n,
{
    if n > 0 && first_failure(rs, n - 1) is Some {
        lemma_first_failure_is_failure(rs, n - 1);
    }
}

/// One sentence saying what an apply did: never success when anything
/// failed — the count that landed, the count attempted, and the first
/// failure spelled out.
pub open spec fn summary_spec(rs: Seq<(OpView, Result<(), FailureView>)>) -> Seq<char> {
    let done = ok_count(rs);
    match first_failure(rs, rs.len() as int) {
        None => if done == 0 {
            "nothing to write"@
        } else {
            "applied "@ + count_of_spec(done, "operation"@)
        },
        Some(k) => "applied "@ + decimal(done) + " of "@ + decimal(rs.len()) + ", "@
            + decimal((rs.len() - done) as nat) + " failed — "@ + op_text(rs[k].0) + ": "@
            + rs[k].1->Err_0.message,
    }
}

/// One sentence saying what an apply actually did.
pub fn apply_summary(results: &[(Operation, Result<(), IoFailure>)]) -> (s: String)
    ensures
        s@ == summary_spec(results_view(results@)),
{
    let ghost rs = results_view(results@);
    let mut done: usize = 0;
    let mut first: Option<usize> = None;
    let mut i: usize = 0;
    while i < results.len()
        invariant
            i <= results@.len(),
            rs == results_view(results@),
            done == ok_count(rs.take(i as int)),
            done <= i,
            match first_failure(rs, i as int) {
                Some(k) => first == Some(k as usize) && 0 <= k < i,
                None => first is None,
            },
        decreases results@.len() - i,
    {
        assert(rs.take(i + 1).drop_last() =~= rs.take(i as int));
        match &results[i].1 {
            Ok(()) => {
                done = done + 1;
            },
            Err(_) => {
                if first.is_none() {
                    first = Some(i);
                }
            },
        }
        i = i + 1;
    }
    assert(rs.take(results@.len() as int) =~= rs);
    assert(ok_count(rs) == done);
    match first {
        None => {
            assert(first_failure(rs, rs.len() as int) is None);
            if done == 0 {
                let s = String::from_str("nothing to write");
                assert(s@ == summary_spec(rs));
                s
            } else {
                let mut s = String::from_str("applied ");
                let c = count_of(done, "operation");
                push_str(&mut s, c.as_str());
                assert(s@ == summary_spec(rs));
                s
            }
        },
        Some(k) => {
            proof {
                lemma_first_failure_is_failure(rs, rs.len() as int);
                lemma_ok_count_bound(rs);
            }
            let n = results.len();
            let mut s = String::from_str("applied ");
            push_decimal(&mut s, done as u128);
            push_str(&mut s, " of ");
            push_decimal(&mut s, n as u128);
            push_str(&mut s, ", ");
            push_decimal(&mut s, (n - done) as u128);
            push_str(&mut s, " failed — ");
            let d = results[k].0.describe();
            push_str(&mut s, d.as_str());
            push_str(&mut s, ": ");
            match &results[k].1 {
                Ok(()) => {},
                Err(e) => {
                    push_str(&mut s, e.message.as_str());
                },
            }
            assert(s@ == summary_spec(rs));
            s
        },
    }
}

// ---- checks an apply makes against the disk

/// What an apply found at one operation's target just before running
/// anything.
#[derive(Debug, Clone, Copy, PartialEq, Eq, Structural)]
pub struct TargetSeen {
    /// Something is at the target path.
    pub exists: bool,
    /// What is there is the rename's own source, reached through a case
    /// fold: a case-only rename on a folding filesystem.
    pub folds_onto_source: bool,
}

/// Whether what was seen at `o`'s target refuses the plan: a rename or
/// create whose target is taken, unless the rename merely changes case.
pub open spec fn blocks(o: OpView, seen: TargetSeen) -> bool {
    !(o is Delete) && seen.exists && !(o is Rename && seen.folds_onto_source)
}

/// The first of the first `n` operations whose target refuses the plan.
pub open spec fn first_blocked(ops: Seq<OpView>, seen: Seq<TargetSeen>, n: int) -> Option<int>
    decreases n,
{
    if n <= 0 {
        None
    } else {
        match first_blocked(ops, seen, n - 1) {
            Some(k) => Some(k),
            None => if blocks(ops[n - 1], seen[n - 1]) { Some(n - 1) } else { None },
        }
    }
}

proof fn lemma_first_blocked_stays(ops: Seq<OpView>, seen: Seq<TargetSeen>, m: int, n: int)
    requires
        0 <= m <= n,
        first_blocked(ops, seen, m) is Some,
    ensures
        first_blocked(ops, seen, n) == first_blocked(ops, seen, m),
    decreases n - m,
{
    if n > m {
        lemma_first_blocked_stays(ops, seen, m, n - 1);
    }
}

/// Why the whole plan must be refused before a single operation runs, if
/// it must: the directory is no longer the one read, or a target is taken.
pub open spec fn preflight_spec(p: PlanView, dir_check: Result<(), Seq<char>>, seen: Seq<TargetSeen>) -> Option<FailureView> {
    match dir_check {
        Err(e) => Some(FailureView { kind: IoKind::Other, raw_os_error: None, message: e + " — no operation ran"@ }),
        Ok(()) => match first_blocked(p.ops, seen, p.ops.len() as int) {
            Some(k) => Some(FailureView {
                kind: IoKind::AlreadyExists,
                raw_os_error: None,
                message: display_name_spec(op_target(p.ops[k])) + " already exists — no operation ran"@,
            }),
            None => None,
        },
    }
}

/// Whether the listed directory is still the one read: the identity the
/// read recorded against what the directory resolves to now.
pub open spec fn verify_dir_spec(recorded: Option<FileId>, resolved: Option<FileId>) -> Result<(), Seq<char>> {
    match recorded {
        None => Ok(()),
        Some(id) => if resolved == Some(id) {
            Ok(())
        } else {
            Err("the listed directory is not the one that was read"@)
        },
    }
}

/// Whether a name still holds the file the read recorded under it.
pub open spec fn still_listed_spec(recorded: Option<FileId>, now: Option<FileId>) -> Result<(), Seq<char>> {
    match recorded {
        None => Ok(()),
        Some(id) => if now == Some(id) {
            Ok(())
        } else {
            Err("this is not the file that was listed under that name — nothing was removed"@)
        },
    }
}

fn same_identity(a: Option<FileId>, b: FileId) -> (r: bool)
    ensures
        r == (a == Some(b)),
{
    match a {
        Some(x) => x.dev == b.dev && x.ino == b.ino,
        None => false,
    }
}

/// Whether `name` still holds what the read recorded under it, given what
/// it holds `now`; a plan built without identities checks nothing.
pub fn still_listed(recorded: Option<FileId>, now: Option<FileId>) -> (r: Result<(), String>)
    ensures
        outcome_view(r) == still_listed_spec(recorded, now),
{
    match recorded {
        None => Ok(()),
        Some(id) => if same_identity(now, id) {
            Ok(())
        } else {
            Err(String::from_str("this is not the file that was listed under that name — nothing was removed"))
        },
    }
}

/// What removing a listed name does, once `lstat` has answered.
#[derive(Debug, Clone, PartialEq, Eq)]
pub enum Removal {
    /// The name no longer holds the file the read recorded: nothing is
    /// removed, for this reason.
    Refuse(String),
    /// Unlink the name: a file, or a symlink, which is never followed.
    UnlinkName,
    /// Remove the directory, which succeeds only while it is empty.
    RemoveEmptyDir,
}

/// A [`Removal`], as a value.
pub ghost enum RemovalView {
    Refuse(Seq<char>),
    UnlinkName,
    RemoveEmptyDir,
}

impl View for Removal {
    type V = RemovalView;

    open spec fn view(&self) -> RemovalView {
        match self {
            Removal::Refuse(r) => RemovalView::Refuse(r@),
            Removal::UnlinkName => RemovalView::UnlinkName,
            Removal::RemoveEmptyDir => RemovalView::RemoveEmptyDir,
        }
    }
}

/// What removing a name does, given what the read recorded under it, what
/// it holds `now`, and whether that is a symlink or a directory.
pub open spec fn removal_spec(recorded: Option<FileId>, now: Option<FileId>, is_symlink: bool, is_dir: bool) -> RemovalView {
    match still_listed_spec(recorded, now) {
        Err(reason) => RemovalView::Refuse(reason),
        Ok(()) => if is_symlink || !is_dir { RemovalView::UnlinkName } else { RemovalView::RemoveEmptyDir },
    }
}

/// How to remove a listed name: refused when it no longer holds the file
/// the read recorded; otherwise a symlink or a file is unlinked and a
/// directory removed only while empty — never recursively.
pub fn removal(recorded: Option<FileId>, now: Option<FileId>, is_symlink: bool, is_dir: bool) -> (r: Removal)
    ensures
        r@ == removal_spec(recorded, now, is_symlink, is_dir),
{
    match still_listed(recorded, now) {
        Err(reason) => Removal::Refuse(reason),
        Ok(()) => if is_symlink || !is_dir { Removal::UnlinkName } else { Removal::RemoveEmptyDir },
    }
}

/// A removal never takes a name that no longer holds the file the read
/// recorded, never follows a symlink, and never removes a directory
/// recursively: with an identity recorded and something else there now it
/// refuses; otherwise a symlink or file is unlinked and a directory goes
/// only while empty.
pub proof fn law_a_removal_takes_only_what_was_listed(recorded: Option<FileId>, now: Option<FileId>, is_symlink: bool, is_dir: bool)
    ensures
        (recorded is Some && now != recorded) ==> removal_spec(recorded, now, is_symlink, is_dir) is Refuse,
        (recorded is None || now == recorded) ==> !(removal_spec(recorded, now, is_symlink, is_dir) is Refuse),
        is_symlink && !(removal_spec(recorded, now, is_symlink, is_dir) is Refuse)
            ==> removal_spec(recorded, now, is_symlink, is_dir) is UnlinkName,
        removal_spec(recorded, now, is_symlink, is_dir) is RemoveEmptyDir ==> is_dir && !is_symlink,
{
}

/// `{name} already exists`, the refusal of a rename onto a taken name.
pub open spec fn already_exists_spec(to: Seq<u8>) -> Seq<char> {
    display_name_spec(to) + " already exists"@
}

/// `{name} already exists`, for the rename onto `to`.
pub fn already_exists(to: &[u8]) -> (s: String)
    ensures
        s@ == already_exists_spec(to@),
{
    let mut s = display_name(to);
    push_str(&mut s, " already exists");
    s
}

/// Whether renaming `from` to `to` changes nothing but case: both final
/// names are text and their lowercase forms agree.
pub open spec fn case_only_spec(from: Seq<u8>, to: Seq<u8>) -> bool {
    match (file_name(from), file_name(to)) {
        (Some(a), Some(b)) => valid_utf8(a) && valid_utf8(b) && lowercase(decode_utf8(a)) == lowercase(decode_utf8(b)),
        _ => false,
    }
}

/// Whether renaming `from` to `to` changes nothing but case. Half of the
/// test for a target that may already exist; the other half asks the
/// directory whether it holds `to`'s exact spelling.
pub fn differs_only_by_case(from: &[u8], to: &[u8]) -> (r: bool)
    ensures
        r == case_only_spec(from@, to@),
{
    let (a, b) = match (file_name_of(from), file_name_of(to)) {
        (Some(a), Some(b)) => (a, b),
        _ => return false,
    };
    let (a, b) = match (string_from_utf8(a), string_from_utf8(b)) {
        (Some(a), Some(b)) => (a, b),
        _ => return false,
    };
    let la = to_lowercase(a.as_str());
    let lb = to_lowercase(b.as_str());
    str_eq(la.as_str(), lb.as_str())
}

impl EditPlan {
    /// `Ok` while the listed directory is still the directory the reader was
    /// shown: what it `resolved` to now against what the read recorded. A
    /// plan over a synthetic listing recorded nothing and is not checked.
    pub fn verify_dir(&self, resolved: Option<FileId>) -> (r: Result<(), String>)
        ensures
            outcome_view(r) == verify_dir_spec(self@.dir_identity, resolved),
    {
        match self.dir_identity {
            None => Ok(()),
            Some(id) => if same_identity(resolved, id) {
                Ok(())
            } else {
                Err(String::from_str("the listed directory is not the one that was read"))
            },
        }
    }

    /// The reason the whole plan must be refused before anything runs, if
    /// it must: `dir_check` is [`EditPlan::verify_dir`]'s answer and
    /// `seen[i]` what was found at operation `i`'s target.
    pub fn preflight(&self, dir_check: Result<(), String>, seen: &[TargetSeen]) -> (r: Option<IoFailure>)
        requires
            seen@.len() == self@.ops.len(),
        ensures
            match r {
                Some(t) => preflight_spec(self@, outcome_view(dir_check), seen@) == Some(t@),
                None => preflight_spec(self@, outcome_view(dir_check), seen@) is None,
            },
    {
        if let Err(error) = dir_check {
            let mut t = error;
            push_str(&mut t, " — no operation ran");
            return Some(IoFailure { kind: IoKind::Other, raw_os_error: None, message: t });
        }
        let ghost ops = self@.ops;
        assert(outcome_view(dir_check) == Ok::<(), Seq<char>>(()));
        let mut i: usize = 0;
        while i < self.ops.len()
            invariant
                i <= self.ops@.len(),
                ops == ops_view(self.ops@),
                seen@.len() == self.ops@.len(),
                outcome_view(dir_check) is Ok,
                first_blocked(ops, seen@, i as int) is None,
            decreases self.ops@.len() - i,
        {
            let op = &self.ops[i];
            assert(ops[i as int] == op.view());
            let blocked = match op {
                Operation::Delete { .. } => false,
                Operation::Rename { .. } => seen[i].exists && !seen[i].folds_onto_source,
                Operation::Create { .. } => seen[i].exists,
            };
            if blocked {
                proof {
                    assert(first_blocked(ops, seen@, i + 1) == Some(i as int));
                    lemma_first_blocked_stays(ops, seen@, i + 1, ops.len() as int);
                }
                let mut t = display_name(op.target());
                push_str(&mut t, " already exists — no operation ran");
                assert(t@ == display_name_spec(op_target(ops[i as int])) + " already exists — no operation ran"@);
                assert(first_blocked(self@.ops, seen@, self@.ops.len() as int) == Some(i as int));
                assert(outcome_view(dir_check) is Ok);
                let f = IoFailure { kind: IoKind::AlreadyExists, raw_os_error: None, message: t };
                assert(preflight_spec(self@, outcome_view(dir_check), seen@) == Some(f@));
                return Some(f);
            }
            i = i + 1;
        }
        None
    }
}

// ---- names and errors as a reader sees them

/// What [`NameFault::message`] says.
pub open spec fn name_fault_text(f: NameFault) -> Seq<char> {
    match f {
        NameFault::Blank => "a name cannot be empty or only whitespace"@,
        NameFault::Separator => "a name cannot contain a path separator"@,
        NameFault::Dot => "`.` and `..` are not names"@,
        NameFault::Nul => "a name cannot contain a NUL byte"@,
        NameFault::Newline => "a name cannot contain a line break"@,
        NameFault::Escapes => "that name does not stay inside this directory"@,
    }
}

impl NameFault {
    /// Why the name was refused, in a reader's words.
    pub fn message(&self) -> (s: String)
        ensures
            s@ == name_fault_text(*self),
    {
        match self {
            NameFault::Blank => String::from_str("a name cannot be empty or only whitespace"),
            NameFault::Separator => String::from_str("a name cannot contain a path separator"),
            NameFault::Dot => String::from_str("`.` and `..` are not names"),
            NameFault::Nul => String::from_str("a name cannot contain a NUL byte"),
            NameFault::Newline => String::from_str("a name cannot contain a line break"),
            NameFault::Escapes => String::from_str("that name does not stay inside this directory"),
        }
    }
}

/// `line n: `, counting lines from one as a reader does.
pub open spec fn line_prefix(line: usize) -> Seq<char> {
    "line "@ + decimal((line + 1) as nat) + ": "@
}

fn line_text(line: usize) -> (s: String)
    ensures
        s@ == line_prefix(line),
{
    let mut s = String::from_str("line ");
    push_decimal(&mut s, line as u128 + 1);
    push_str(&mut s, ": ");
    s
}

/// What [`EditError::message`] says.
pub open spec fn edit_error_text(e: ErrView) -> Seq<char> {
    match e {
        ErrView::MalformedRow { line } => line_prefix(line) + "not a buffer row"@,
        ErrView::UnknownRow { line, id } => line_prefix(line) + "no entry "@ + decimal(id as nat) + " in this listing"@,
        ErrView::DuplicateRow { line, id } => line_prefix(line) + "entry "@ + decimal(id as nat) + " is named twice"@,
        ErrView::ParentRow { line } => line_prefix(line) + "the `../` row cannot be edited"@,
        ErrView::InconsistentListing { name } =>
            "`"@ + name + "`: this is not a plain reading of one directory and cannot be edited"@,
        ErrView::IllegalName { line, name, fault } => line_prefix(line) + "`"@ + name + "` — "@ + name_fault_text(fault),
        ErrView::NameTaken { line, name, existing } => if name == existing {
            line_prefix(line) + "`"@ + name + "` already exists here — move it away in a separate write first"@
        } else {
            line_prefix(line) + "`"@ + name + "` and `"@ + existing
                + "`, which already exists here, are one name on this filesystem"@
        },
        ErrView::DuplicateName { name, other } => if name == other {
            "two rows both name `"@ + name + "`"@
        } else {
            "`"@ + name + "` and `"@ + other + "` are one name on this filesystem, and two rows ask for both"@
        },
        ErrView::NonUtf8Rename { line, shown } =>
            line_prefix(line) + "`"@ + shown + "` is not valid text on disk and cannot be renamed from here"@,
        ErrView::DirectoryCreate { line, name } =>
            line_prefix(line) + "`"@ + name + "` — this phase creates files, not directories"@,
    }
}

impl EditError {
    /// Why the buffer could not become a plan, pointing at the offending row
    /// where there is one.
    pub fn message(&self) -> (s: String)
        ensures
            s@ == edit_error_text(self.view()),
    {
        match self {
            EditError::MalformedRow { line } => {
                let mut s = line_text(*line);
                push_str(&mut s, "not a buffer row");
                s
            },
            EditError::UnknownRow { line, id } => {
                let mut s = line_text(*line);
                push_str(&mut s, "no entry ");
                push_decimal(&mut s, *id as u128);
                push_str(&mut s, " in this listing");
                s
            },
            EditError::DuplicateRow { line, id } => {
                let mut s = line_text(*line);
                push_str(&mut s, "entry ");
                push_decimal(&mut s, *id as u128);
                push_str(&mut s, " is named twice");
                s
            },
            EditError::ParentRow { line } => {
                let mut s = line_text(*line);
                push_str(&mut s, "the `../` row cannot be edited");
                s
            },
            EditError::InconsistentListing { name } => {
                let mut s = String::from_str("`");
                push_str(&mut s, name.as_str());
                push_str(&mut s, "`: this is not a plain reading of one directory and cannot be edited");
                s
            },
            EditError::IllegalName { line, name, fault } => {
                let mut s = line_text(*line);
                push_str(&mut s, "`");
                push_str(&mut s, name.as_str());
                push_str(&mut s, "` — ");
                let f = fault.message();
                push_str(&mut s, f.as_str());
                s
            },
            EditError::NameTaken { line, name, existing } => {
                let mut s = line_text(*line);
                push_str(&mut s, "`");
                push_str(&mut s, name.as_str());
                if str_eq(name.as_str(), existing.as_str()) {
                    push_str(&mut s, "` already exists here — move it away in a separate write first");
                } else {
                    push_str(&mut s, "` and `");
                    push_str(&mut s, existing.as_str());
                    push_str(&mut s, "`, which already exists here, are one name on this filesystem");
                }
                s
            },
            EditError::DuplicateName { name, other } => {
                if str_eq(name.as_str(), other.as_str()) {
                    let mut s = String::from_str("two rows both name `");
                    push_str(&mut s, name.as_str());
                    push_str(&mut s, "`");
                    s
                } else {
                    let mut s = String::from_str("`");
                    push_str(&mut s, name.as_str());
                    push_str(&mut s, "` and `");
                    push_str(&mut s, other.as_str());
                    push_str(&mut s, "` are one name on this filesystem, and two rows ask for both");
                    s
                }
            },
            EditError::NonUtf8Rename { line, shown } => {
                let mut s = line_text(*line);
                push_str(&mut s, "`");
                push_str(&mut s, shown.as_str());
                push_str(&mut s, "` is not valid text on disk and cannot be renamed from here");
                s
            },
            EditError::DirectoryCreate { line, name } => {
                let mut s = line_text(*line);
                push_str(&mut s, "`");
                push_str(&mut s, name.as_str());
                push_str(&mut s, "` — this phase creates files, not directories");
                s
            },
        }
    }
}

// ---- hard links

/// What kind of failure an I/O call reported, as far as renaming tells
/// kinds apart.
#[derive(Debug, Clone, Copy, PartialEq, Eq, Structural)]
pub enum IoKind {
    AlreadyExists,
    PermissionDenied,
    Unsupported,
    NotFound,
    Other,
}

/// A failed I/O call, as values: its kind, the operating system's own
/// error number when there is one, and its message.
#[derive(Debug, Clone, PartialEq, Eq)]
pub struct IoFailure {
    pub kind: IoKind,
    pub raw_os_error: Option<i32>,
    pub message: String,
}

/// An [`IoFailure`], as a value.
pub ghost struct FailureView {
    pub kind: IoKind,
    pub raw_os_error: Option<i32>,
    pub message: Seq<char>,
}

impl View for IoFailure {
    type V = FailureView;

    open spec fn view(&self) -> FailureView {
        FailureView { kind: self.kind, raw_os_error: self.raw_os_error, message: self.message@ }
    }
}

/// `EMLINK`, spelled the same on Linux and the BSDs; no error kind names
/// it, so the number is the only way to ask.
pub const EMLINK: i32 = 31;

/// Whether `link(2)` failing with `e` means hard links are not usable here,
/// rather than that the name is taken.
pub open spec fn links_unavailable_spec(e: IoFailure) -> bool {
    e.kind == IoKind::PermissionDenied || e.kind == IoKind::Unsupported || e.raw_os_error == Some(EMLINK)
}

/// Whether `link(2)` failing with `error` means "not available here" rather
/// than "that name is taken".
pub fn hard_links_unavailable(error: &IoFailure) -> (r: bool)
    ensures
        r == links_unavailable_spec(*error),
{
    let by_kind = match error.kind {
        IoKind::PermissionDenied => true,
        IoKind::Unsupported => true,
        _ => false,
    };
    let by_number = match error.raw_os_error {
        Some(n) => n == EMLINK,
        None => false,
    };
    by_kind || by_number
}

/// What a `link(2)` outcome means for the rename that asked for it.
#[derive(Debug)]
pub enum LinkOutcome {
    /// The new name is in place; all that is left is to drop the old one.
    Linked,
    /// The name is taken — the refusal the primitive exists to get. Only a
    /// fold onto the source itself is not a collision.
    Taken(IoFailure),
    /// Hard links are not usable here: not a collision, so fall back to the
    /// checked rename.
    Unavailable,
    /// Anything else, reported as it came.
    Failed(IoFailure),
}

/// Which of those four a `link(2)` result is. A taken name is asked about
/// first, so a collision can never be mistaken for "hard links are
/// unavailable" and sent down a path that would replace the file.
pub fn classify_link(result: Result<(), IoFailure>) -> (o: LinkOutcome)
    ensures
        match result {
            Ok(()) => o is Linked,
            Err(e) => if e.kind == IoKind::AlreadyExists {
                o == LinkOutcome::Taken(e)
            } else if links_unavailable_spec(e) {
                o is Unavailable
            } else {
                o == LinkOutcome::Failed(e)
            },
        },
{
    match result {
        Ok(()) => LinkOutcome::Linked,
        Err(error) => {
            if let IoKind::AlreadyExists = error.kind {
                LinkOutcome::Taken(error)
            } else if hard_links_unavailable(&error) {
                LinkOutcome::Unavailable
            } else {
                LinkOutcome::Failed(error)
            }
        },
    }
}

// ---- probing how a filesystem compares names

/// `name` with its case flipped, or `None` when flipping changes nothing.
pub open spec fn case_flipped_spec(name: Seq<char>) -> Option<Seq<char>> {
    if uppercase(name) != name {
        Some(uppercase(name))
    } else if lowercase(name) != name {
        Some(lowercase(name))
    } else {
        None
    }
}

/// `name` with its case flipped — uppercased, or lowercased when it already
/// was — or `None` when it has no cased letter and flipping is therefore not
/// a different spelling.
pub fn case_flipped(name: &str) -> (r: Option<String>)
    ensures
        match r {
            Some(f) => case_flipped_spec(name@) == Some(f@),
            None => case_flipped_spec(name@) is None,
        },
{
    let upper = to_uppercase(name);
    if !str_eq(upper.as_str(), name) {
        return Some(upper);
    }
    let lower = to_lowercase(name);
    if !str_eq(lower.as_str(), name) {
        Some(lower)
    } else {
        None
    }
}

/// The spelling a probe of `p` stats: `p`'s parent joined with its final
/// name case-flipped — or `None` when `p` cannot answer at all: nothing was
/// recorded for it, it has no final name, the name is not text, or it has
/// no cased letter.
pub open spec fn probe_spec(p: Seq<u8>, identity: Option<FileId>) -> Option<Seq<u8>> {
    match (identity, file_name(p), parent_comps(p)) {
        (Some(_), Some(n), Some(parent)) => if valid_utf8(n) {
            match case_flipped_spec(decode_utf8(n)) {
                Some(f) => Some(join(render(parent), encode_utf8(f))),
                None => None,
            }
        } else {
            None
        },
        _ => None,
    }
}

/// The spelling to stat to learn how the filesystem under `path` compares
/// names, or `None` when `path` cannot answer.
pub fn probe_one(path: &[u8], identity: Option<FileId>) -> (r: Option<Vec<u8>>)
    ensures
        match r {
            Some(q) => probe_spec(path@, identity) == Some(q@),
            None => probe_spec(path@, identity) is None,
        },
{
    if identity.is_none() {
        return None;
    }
    let name = match file_name_of(path) {
        Some(n) => n,
        None => return None,
    };
    let parent = match parent_of(path) {
        Some(q) => q,
        None => return None,
    };
    let text = match string_from_utf8(name) {
        Some(t) => t,
        None => return None,
    };
    let flipped = match case_flipped(text.as_str()) {
        Some(f) => f,
        None => return None,
    };
    let bytes = bytes_of(flipped.as_str());
    Some(join_path(parent.as_slice(), bytes.as_slice()))
}

/// What one probe found: the flipped spelling reached the very file the
/// read recorded (the filesystem folds case) or did not (it compares
/// exactly).
pub fn probe_verdict(recorded: FileId, flipped: Option<FileId>) -> (r: NameEquivalence)
    ensures
        r == (if flipped == Some(recorded) { NameEquivalence::Folded } else { NameEquivalence::Exact }),
{
    if same_identity(flipped, recorded) {
        NameEquivalence::Folded
    } else {
        NameEquivalence::Exact
    }
}


/// Which lookup a probe's spelling is given: the link itself for an entry,
/// so a symlink is never compared through to its target, and the resolved
/// path for the directory, whose identity was recorded that way.
#[derive(Debug, Clone, Copy, PartialEq, Eq, Structural)]
pub enum ProbeVia {
    Link,
    Resolved,
}

/// One probe to run: look `path` up by `via` and compare what it names with
/// `recorded`.
#[derive(Debug, Clone, PartialEq, Eq)]
pub struct Probe {
    pub path: Vec<u8>,
    pub recorded: FileId,
    pub via: ProbeVia,
}

/// A [`Probe`], as a value.
pub ghost struct ProbeView {
    pub path: Seq<u8>,
    pub recorded: FileId,
    pub via: ProbeVia,
}

impl View for Probe {
    type V = ProbeView;

    open spec fn view(&self) -> ProbeView {
        ProbeView { path: self.path@, recorded: self.recorded, via: self.via }
    }
}

/// The first of the first `n` entries that can answer a probe: not the
/// `../` row, and with something recorded and a cased final name.
pub open spec fn first_probe_entry(read: Listing, n: int) -> Option<int>
    decreases n,
{
    if n <= 0 {
        None
    } else {
        match first_probe_entry(read, n - 1) {
            Some(k) => Some(k),
            None => {
                let e = read.entries_spec()[n - 1];
                if e.kind != EntryKind::Parent && probe_spec(e.path@, read.identity_spec(n - 1)) is Some {
                    Some(n - 1)
                } else {
                    None
                }
            },
        }
    }
}

/// The one probe that settles how `read`'s filesystem compares names: the
/// first entry that can answer, else the directory itself, else none.
pub open spec fn probe_for(read: Listing) -> Option<ProbeView> {
    match first_probe_entry(read, read.entries_spec().len() as int) {
        Some(k) => Some(ProbeView {
            path: probe_spec(read.entries_spec()[k].path@, read.identity_spec(k))->0,
            recorded: read.identity_spec(k)->0,
            via: ProbeVia::Link,
        }),
        None => match probe_spec(read.dir_spec(), read.dir_identity_spec()) {
            Some(q) => Some(ProbeView { path: q, recorded: read.dir_identity_spec()->0, via: ProbeVia::Resolved }),
            None => None,
        },
    }
}

proof fn lemma_first_probe_entry_stays(read: Listing, m: int, n: int)
    requires
        0 <= m <= n,
        first_probe_entry(read, m) is Some,
    ensures
        first_probe_entry(read, n) == first_probe_entry(read, m),
    decreases n - m,
{
    if n > m {
        lemma_first_probe_entry_stays(read, m, n - 1);
    }
}

proof fn lemma_first_probe_entry_bounds(read: Listing, n: int)
    ensures
        first_probe_entry(read, n) matches Some(k) ==> 0 <= k < n,
    decreases n,
{
    if n > 0 {
        lemma_first_probe_entry_bounds(read, n - 1);
    }
}

/// The probe to run on `read`, if any can be.
pub fn next_probe(read: &Listing) -> (r: Option<Probe>)
    ensures
        match r {
            Some(p) => probe_for(*read) == Some(p@),
            None => probe_for(*read) is None,
        },
{
    let entries = read.entries();
    let mut i: usize = 0;
    while i < entries.len()
        invariant
            i <= entries@.len(),
            entries@ == read.entries_spec(),
            first_probe_entry(*read, i as int) is None,
        decreases entries@.len() - i,
    {
        let e = &entries[i];
        if e.kind != EntryKind::Parent {
            let identity = read.identity(i);
            if let Some(q) = probe_one(e.path.as_slice(), identity) {
                proof {
                    assert(first_probe_entry(*read, i + 1) == Some(i as int));
                    lemma_first_probe_entry_stays(*read, i + 1, entries@.len() as int);
                }
                let recorded = match identity {
                    Some(id) => id,
                    None => return None,
                };
                return Some(Probe { path: q, recorded, via: ProbeVia::Link });
            }
        }
        i = i + 1;
    }
    let dir_identity = read.dir_identity();
    match probe_one(read.dir(), dir_identity) {
        Some(q) => match dir_identity {
            Some(id) => Some(Probe { path: q, recorded: id, via: ProbeVia::Resolved }),
            None => None,
        },
        None => None,
    }
}

/// How `read`'s filesystem compares names, given what the lookup of
/// [`next_probe`]'s spelling found: nothing to probe folds, the
/// conservative answer, since guessing `Exact` would wave a collision
/// through.
pub fn probe_equivalence(read: &Listing, found: Option<FileId>) -> (r: NameEquivalence)
    ensures
        r == match probe_for(*read) {
            None => NameEquivalence::Folded,
            Some(p) => if found == Some(p.recorded) { NameEquivalence::Folded } else { NameEquivalence::Exact },
        },
{
    match next_probe(read) {
        None => NameEquivalence::Folded,
        Some(p) => probe_verdict(p.recorded, found),
    }
}

// ---- laws of a plan

/// Whether `p` is a direct child of `dir`.
pub open spec fn inside(dir: Seq<u8>, p: Seq<u8>) -> bool {
    parent_comps(p) == Some(components(dir))
}

/// Whether every path `o` touches is a direct child of `dir`.
pub open spec fn op_inside(dir: Seq<u8>, o: OpView) -> bool {
    match o {
        OpView::Rename { from, to } => inside(dir, from) && inside(dir, to),
        OpView::Create { path } => inside(dir, path),
        OpView::Delete { path, .. } => inside(dir, path),
    }
}

proof fn lemma_consistent_all(dir: Seq<u8>, entries: Seq<Entry>, n: int)
    requires
        first_inconsistent(dir, entries, n) is None,
    ensures
        forall|i: int| 0 <= i < n ==> !entry_inconsistent(dir, entries, i),
    decreases n,
{
    if n > 0 {
        lemma_consistent_all(dir, entries, n - 1);
    }
}

proof fn lemma_entry_inside(dir: Seq<u8>, entries: Seq<Entry>, i: int)
    requires
        0 <= i < entries.len(),
        entries[i].kind != EntryKind::Parent,
        !entry_inconsistent(dir, entries, i),
    ensures
        inside(dir, entries[i].path@),
{
    let e = entries[i];
    assert(entry_name_ok_spec(e.name@));
    crate::path::lemma_components_single(e.name@);
    crate::path::lemma_join_single(dir, e.name@);
    let cs = components(e.path@);
    assert(cs == components(dir).push(Comp::Normal(e.name@)));
    assert(cs.drop_last() =~= components(dir));
}

proof fn lemma_parse_shape(dir: Seq<u8>, entries: Seq<Entry>, lines: Seq<Seq<char>>)
    requires
        forall|i: int| 0 <= i < entries.len() ==> !entry_inconsistent(dir, entries, i),
        parse_lines(dir, entries, lines) is Ok,
    ensures
        ({
            let st = parse_lines(dir, entries, lines)->Ok_0;
            &&& st.present.len() == entries.len()
            &&& forall|k: int| 0 <= k < st.renames.len() ==> (#[trigger] st.renames[k]) is Rename && op_inside(dir, st.renames[k])
            &&& forall|k: int| 0 <= k < st.creates.len() ==> (#[trigger] st.creates[k]) is Create && op_inside(dir, st.creates[k])
        }),
    decreases lines.len(),
{
    if lines.len() > 0 {
        reveal(parse_line);
        lemma_parse_shape(dir, entries, lines.drop_last());
        let st = parse_lines(dir, entries, lines.drop_last())->Ok_0;
        let text = lines.last();
        let t = index_of(text, '\t')->0;
        let rest = text.skip(t + 1);
        let prefix = text.take(t);
        if prefix.len() > 0 {
            if let Some(id) = parse_usize_spec(prefix) {
                if id < entries.len() && entries[id as int].kind != EntryKind::Parent {
                    lemma_entry_inside(dir, entries, id as int);
                }
            }
        }
        let now = parse_lines(dir, entries, lines)->Ok_0;
        assert forall|k: int| 0 <= k < now.renames.len() implies (#[trigger] now.renames[k]) is Rename && op_inside(dir, now.renames[k]) by {
            if k < st.renames.len() {
                assert(now.renames[k] == st.renames[k]);
            }
        }
        assert forall|k: int| 0 <= k < now.creates.len() implies (#[trigger] now.creates[k]) is Create && op_inside(dir, now.creates[k]) by {
            if k < st.creates.len() {
                assert(now.creates[k] == st.creates[k]);
            }
        }
    }
}

proof fn lemma_deletes_shape(read: Listing, present: Seq<bool>, n: int)
    requires
        0 <= n <= read.entries_spec().len(),
        forall|i: int| 0 <= i < read.entries_spec().len() ==> !entry_inconsistent(read.dir_spec(), read.entries_spec(), i),
    ensures
        ({
            let d = deletes_spec(read, present, n).0;
            &&& forall|k: int| 0 <= k < d.len() ==> (#[trigger] d[k]) is Delete && op_inside(read.dir_spec(), d[k])
            &&& read.truncated_spec() ==> d.len() == 0
        }),
    decreases n,
{
    if n > 0 {
        lemma_deletes_shape(read, present, n - 1);
        let e = read.entries_spec()[n - 1];
        if e.kind != EntryKind::Parent {
            lemma_entry_inside(read.dir_spec(), read.entries_spec(), n - 1);
        }
        let before = deletes_spec(read, present, n - 1).0;
        let now = deletes_spec(read, present, n).0;
        assert forall|k: int| 0 <= k < now.len() implies (#[trigger] now[k]) is Delete && op_inside(read.dir_spec(), now[k]) by {
            if k < before.len() {
                assert(now[k] == before[k]);
            }
        }
    }
}

/// Every operation a plan holds acts on direct children of the listed
/// directory — the renamed entry and its new name, the created file, the
/// deleted entry — however the buffer was edited.
pub proof fn law_every_operation_stays_in_the_listed_directory(read: Listing, lines: Seq<Seq<char>>)
    requires
        diff_spec(read, lines) is Ok,
    ensures
        forall|i: int| 0 <= i < diff_spec(read, lines)->Ok_0.ops.len()
            ==> op_inside(read.dir_spec(), #[trigger] diff_spec(read, lines)->Ok_0.ops[i]),
{
    let dir = read.dir_spec();
    let entries = read.entries_spec();
    lemma_consistent_all(dir, entries, entries.len() as int);
    lemma_parse_shape(dir, entries, lines);
    let st = parse_lines(dir, entries, lines)->Ok_0;
    lemma_deletes_shape(read, st.present, entries.len() as int);
    let p = diff_spec(read, lines)->Ok_0;
    let d = deletes_spec(read, st.present, entries.len() as int).0;
    assert forall|i: int| 0 <= i < p.ops.len() implies op_inside(dir, #[trigger] p.ops[i]) by {
        if i < st.renames.len() {
            assert(p.ops[i] == st.renames[i]);
        } else if i < st.renames.len() + st.creates.len() {
            assert(p.ops[i] == st.creates[i - st.renames.len()]);
        } else {
            assert(p.ops[i] == d[i - st.renames.len() - st.creates.len()]);
        }
    }
}

/// A plan runs renames and creates first and deletes last: everything
/// before its delete boundary can be taken back, everything after it is a
/// delete.
pub proof fn law_deletes_run_last(read: Listing, lines: Seq<Seq<char>>)
    requires
        diff_spec(read, lines) is Ok,
    ensures
        ({
            let p = diff_spec(read, lines)->Ok_0;
            &&& p.first_delete <= p.ops.len()
            &&& forall|i: int| 0 <= i < p.first_delete ==> !((#[trigger] p.ops[i]) is Delete)
            &&& forall|i: int| p.first_delete <= i < p.ops.len() ==> (#[trigger] p.ops[i]) is Delete
        }),
{
    let dir = read.dir_spec();
    let entries = read.entries_spec();
    lemma_consistent_all(dir, entries, entries.len() as int);
    lemma_parse_shape(dir, entries, lines);
    let st = parse_lines(dir, entries, lines)->Ok_0;
    lemma_deletes_shape(read, st.present, entries.len() as int);
    let p = diff_spec(read, lines)->Ok_0;
    let d = deletes_spec(read, st.present, entries.len() as int).0;
    assert forall|i: int| 0 <= i < p.first_delete implies !((#[trigger] p.ops[i]) is Delete) by {
        if i < st.renames.len() {
            assert(p.ops[i] == st.renames[i]);
        } else {
            assert(p.ops[i] == st.creates[i - st.renames.len()]);
        }
    }
    assert forall|i: int| p.first_delete <= i < p.ops.len() implies (#[trigger] p.ops[i]) is Delete by {
        assert(p.ops[i] == d[i - st.renames.len() - st.creates.len()]);
    }
}

/// A capped listing never deletes: absence from a listing that was not read
/// to the end cannot mean the reader removed the row.
pub proof fn law_a_capped_listing_deletes_nothing(read: Listing, lines: Seq<Seq<char>>)
    requires
        diff_spec(read, lines) is Ok,
        read.truncated_spec(),
    ensures
        diff_spec(read, lines)->Ok_0.first_delete == diff_spec(read, lines)->Ok_0.ops.len(),
{
    let dir = read.dir_spec();
    let entries = read.entries_spec();
    lemma_consistent_all(dir, entries, entries.len() as int);
    lemma_parse_shape(dir, entries, lines);
    let st = parse_lines(dir, entries, lines)->Ok_0;
    lemma_deletes_shape(read, st.present, entries.len() as int);
}


/// The paths of the non-parent entries among the first `n` that no line
/// named, in entry order.
pub open spec fn unnamed_paths(entries: Seq<Entry>, named: Seq<bool>, n: int) -> Seq<Seq<u8>>
    decreases n,
{
    if n <= 0 {
        Seq::empty()
    } else {
        let before = unnamed_paths(entries, named, n - 1);
        if named[n - 1] || entries[n - 1].kind == EntryKind::Parent {
            before
        } else {
            before.push(entries[n - 1].path@)
        }
    }
}

proof fn lemma_deletes_are_unnamed(read: Listing, named: Seq<bool>, n: int)
    requires
        0 <= n <= read.entries_spec().len(),
    ensures
        ({
            let (d, sup) = deletes_spec(read, named, n);
            let u = unnamed_paths(read.entries_spec(), named, n);
            &&& !read.truncated_spec() ==> sup == 0 && d.len() == u.len()
                && forall|j: int| 0 <= j < d.len() ==> ((#[trigger] d[j]) matches OpView::Delete { path, .. } && path == u[j])
            &&& read.truncated_spec() ==> d.len() == 0 && sup == u.len()
        }),
    decreases n,
{
    if n > 0 {
        lemma_deletes_are_unnamed(read, named, n - 1);
        let (d0, s0) = deletes_spec(read, named, n - 1);
        let (d, sup) = deletes_spec(read, named, n);
        let u0 = unnamed_paths(read.entries_spec(), named, n - 1);
        let u = unnamed_paths(read.entries_spec(), named, n);
        if !read.truncated_spec() {
            assert forall|j: int| 0 <= j < d.len() implies ((#[trigger] d[j]) matches OpView::Delete { path, .. } && path == u[j]) by {
                if j < d0.len() {
                    assert(d[j] == d0[j]);
                    assert(u[j] == u0[j]);
                }
            }
        }
    }
}

/// A plan's deletes are exactly the entries no line named — the `../` row
/// never among them — in entry order: one delete of each such entry's
/// recorded path. A capped listing has none, and counts them instead.
pub proof fn law_the_deletes_are_the_unnamed_entries_in_order(read: Listing, lines: Seq<Seq<char>>)
    requires
        diff_spec(read, lines) is Ok,
    ensures
        ({
            let p = diff_spec(read, lines)->Ok_0;
            let named = parse_lines(read.dir_spec(), read.entries_spec(), lines)->Ok_0.present;
            let unnamed = unnamed_paths(read.entries_spec(), named, read.entries_spec().len() as int);
            let dels = p.ops.skip(p.first_delete as int);
            &&& !read.truncated_spec() ==> p.suppressed == 0 && dels.len() == unnamed.len()
                && forall|j: int| 0 <= j < dels.len() ==> ((#[trigger] dels[j]) matches OpView::Delete { path, .. } && path == unnamed[j])
            &&& read.truncated_spec() ==> dels.len() == 0 && p.suppressed == unnamed.len()
        }),
{
    let dir = read.dir_spec();
    let entries = read.entries_spec();
    lemma_consistent_all(dir, entries, entries.len() as int);
    lemma_parse_shape(dir, entries, lines);
    let st = parse_lines(dir, entries, lines)->Ok_0;
    lemma_deletes_are_unnamed(read, st.present, entries.len() as int);
    let p = diff_spec(read, lines)->Ok_0;
    let d = deletes_spec(read, st.present, entries.len() as int).0;
    assert(p.ops.skip(p.first_delete as int) =~= d);
}

/// A finished apply has one outcome per operation, each paired with the
/// operation at its own index: nothing is left unreported and nothing is
/// reported twice.
pub proof fn law_a_finished_apply_has_one_outcome_per_operation(run: Applying)
    requires
        run.wf(),
        run@.results.len() == run@.ops.len(),
    ensures
        forall|i: int| 0 <= i < run@.ops.len() ==> (#[trigger] run@.results[i]).0 == run@.ops[i],
{
}

/// Each delete, and each rename or create that lands, settles only itself:
/// the next operation is still there to run, whatever the earlier deletes'
/// outcomes. So once the renames and creates have landed, every delete is
/// run and reported on its own.
pub proof fn law_each_delete_is_run_and_reported_on_its_own(v: ApplyView, outcome: Result<(), FailureView>)
    requires
        apply_consistent(v),
        v.results.len() < v.ops.len(),
        v.results.len() >= v.first_delete || outcome is Ok,
    ensures
        after_outcome(v, outcome) == v.results.push((v.ops[v.results.len() as int], outcome)),
        after_outcome(v, outcome).len() == v.results.len() + 1,
{
}

proof fn lemma_first_failure_prefix(rs: Seq<(OpView, Result<(), FailureView>)>, t: Seq<(OpView, Result<(), FailureView>)>, n: int)
    requires
        0 <= n <= rs.len(),
        n <= t.len(),
        forall|i: int| 0 <= i < n ==> rs[i] == t[i],
    ensures
        first_failure(rs, n) == first_failure(t, n),
    decreases n,
{
    if n > 0 {
        lemma_first_failure_prefix(rs, t, n - 1);
        assert(rs[n - 1] == t[n - 1]);
    }
}

/// No outcome failed exactly when every outcome is `Ok`: so the summary's
/// success sentences are said only when everything landed, and whenever
/// anything failed it reads "applied k of n" with `k` below `n`.
pub proof fn law_the_summary_never_claims_success_over_a_failure(rs: Seq<(OpView, Result<(), FailureView>)>)
    ensures
        (first_failure(rs, rs.len() as int) is None) <==> (ok_count(rs) == rs.len()),
        ok_count(rs) <= rs.len(),
    decreases rs.len(),
{
    lemma_ok_count_bound(rs);
    if rs.len() > 0 {
        let d = rs.drop_last();
        law_the_summary_never_claims_success_over_a_failure(d);
        lemma_first_failure_prefix(rs, d, d.len() as int);
        if first_failure(rs, d.len() as int) is Some {
            lemma_first_failure_is_failure(d, d.len() as int);
        }
    }
}

// ---- an untouched buffer

/// Which entries the lines of an untouched buffer have named once its first
/// `k` rows are read: every non-parent row among them.
spec fn named_through(entries: Seq<Entry>, k: int) -> Seq<bool> {
    Seq::new(entries.len(), |i: int| i < k && entries[i].kind != EntryKind::Parent)
}

/// The line an untouched, non-parent row `id` hands the diff.
pub open spec fn seeded_line(entries: Seq<Entry>, id: usize) -> Seq<char> {
    decimal(id as nat) + "\t"@ + row_text_of(entries[id as int].name@, entries[id as int].kind)
}

proof fn lemma_seeded_line_parses(dir: Seq<u8>, entries: Seq<Entry>, st: ParseView, line: usize, id: usize)
    requires
        id < entries.len(),
        entries[id as int].kind != EntryKind::Parent,
        st.present.len() == entries.len(),
        !st.present[id as int],
    ensures
        parse_line(dir, entries, st, line, seeded_line(entries, id))
            == Ok::<ParseView, ErrView>(ParseView { present: st.present.update(id as int, true), ..st }),
{
    let e = entries[id as int];
    let d = decimal(id as nat);
    let text = row_text_of(e.name@, e.kind);
    let l = seeded_line(entries, id);
    reveal(parse_line);
    reveal_strlit("\t");
    lemma_decimal_reads_back(id as nat);
    lemma_parse_decimal(id);
    assert forall|j: int| 0 <= j < d.len() implies l[j] != '\t' by {
        assert(l[j] == d[j]);
        assert(is_digit(d[j]));
    }
    assert(l[d.len() as int] == '\t');
    lemma_index_of(l, '\t', d.len() as int);
    assert(l.take(d.len() as int) =~= d);
    assert(l.skip(d.len() as int + 1) =~= text);
}

spec fn seeded_state(entries: Seq<Entry>, k: int) -> ParseView {
    ParseView {
        present: named_through(entries, k),
        renames: Seq::empty(),
        creates: Seq::empty(),
        produced: Seq::empty(),
    }
}

proof fn lemma_seeded_buffer_step(entries: Seq<Entry>, k: int)
    requires
        1 <= k <= entries.len(),
        entries.len() <= usize::MAX,
    ensures
        buffer_lines(seeded_rows(entries).take(k)) == (if entries[k - 1].kind == EntryKind::Parent {
            buffer_lines(seeded_rows(entries).take(k - 1))
        } else {
            buffer_lines(seeded_rows(entries).take(k - 1)).push(seeded_line(entries, (k - 1) as usize))
        }),
{
    let rows = seeded_rows(entries).take(k);
    assert(rows.drop_last() =~= seeded_rows(entries).take(k - 1));
    assert(rows.last() == seeded_rows(entries)[k - 1]);
    reveal_strlit("\t");
}

proof fn lemma_parse_one_more(dir: Seq<u8>, entries: Seq<Entry>, prev: Seq<Seq<char>>, l: Seq<char>, st: ParseView)
    requires
        parse_lines(dir, entries, prev) == Ok::<ParseView, ErrView>(st),
    ensures
        parse_lines(dir, entries, prev.push(l)) == parse_line(dir, entries, st, prev.len() as usize, l),
{
    assert(prev.push(l).drop_last() =~= prev);
    assert(prev.push(l).last() == l);
}

proof fn lemma_seeded_parse_parent(dir: Seq<u8>, entries: Seq<Entry>, k: int)
    requires
        1 <= k <= entries.len(),
        entries.len() <= usize::MAX,
        entries[k - 1].kind == EntryKind::Parent,
        parse_lines(dir, entries, buffer_lines(seeded_rows(entries).take(k - 1))) == Ok::<ParseView, ErrView>(seeded_state(entries, k - 1)),
    ensures
        parse_lines(dir, entries, buffer_lines(seeded_rows(entries).take(k))) == Ok::<ParseView, ErrView>(seeded_state(entries, k)),
{
    lemma_seeded_buffer_step(entries, k);
    assert(named_through(entries, k) =~= named_through(entries, k - 1));
}

proof fn lemma_seeded_parse_child(dir: Seq<u8>, entries: Seq<Entry>, k: int)
    requires
        1 <= k <= entries.len(),
        entries.len() <= usize::MAX,
        entries[k - 1].kind != EntryKind::Parent,
        parse_lines(dir, entries, buffer_lines(seeded_rows(entries).take(k - 1))) == Ok::<ParseView, ErrView>(seeded_state(entries, k - 1)),
    ensures
        parse_lines(dir, entries, buffer_lines(seeded_rows(entries).take(k))) == Ok::<ParseView, ErrView>(seeded_state(entries, k)),
{
    lemma_seeded_buffer_step(entries, k);
    let prev = buffer_lines(seeded_rows(entries).take(k - 1));
    let st = seeded_state(entries, k - 1);
    let id = (k - 1) as usize;
    let l = seeded_line(entries, id);
    lemma_parse_one_more(dir, entries, prev, l, st);
    assert(!st.present[k - 1]);
    lemma_seeded_line_parses(dir, entries, st, prev.len() as usize, id);
    assert(named_through(entries, k - 1).update(k - 1, true) =~= named_through(entries, k));
}

proof fn lemma_seeded_lines_parse(dir: Seq<u8>, entries: Seq<Entry>, k: int)
    requires
        0 <= k <= entries.len(),
        entries.len() <= usize::MAX,
    ensures
        parse_lines(dir, entries, buffer_lines(seeded_rows(entries).take(k))) == Ok::<ParseView, ErrView>(seeded_state(entries, k)),
    decreases k,
{
    if k == 0 {
        assert(seeded_rows(entries).take(0) =~= Seq::<RowView>::empty());
        assert(named_through(entries, 0) =~= Seq::new(entries.len(), |i: int| false));
    } else {
        lemma_seeded_lines_parse(dir, entries, k - 1);
        if entries[k - 1].kind == EntryKind::Parent {
            lemma_seeded_parse_parent(dir, entries, k);
        } else {
            lemma_seeded_parse_child(dir, entries, k);
        }
    }
}

proof fn lemma_nothing_left_to_delete(read: Listing, n: int)
    requires
        0 <= n <= read.entries_spec().len(),
    ensures
        deletes_spec(read, named_through(read.entries_spec(), read.entries_spec().len() as int), n)
            == (Seq::<OpView>::empty(), 0nat),
    decreases n,
{
    if n > 0 {
        lemma_nothing_left_to_delete(read, n - 1);
    }
}

/// Opening a listing for editing and handing the untouched buffer straight
/// back plans nothing: entering edit mode changes the gutter and nothing
/// else, so no rename, create or delete comes of it, and nothing is counted
/// as a suppressed delete.
pub proof fn law_an_untouched_buffer_plans_nothing(read: Listing)
    requires
        first_inconsistent(read.dir_spec(), read.entries_spec(), read.entries_spec().len() as int) is None,
        read.entries_spec().len() <= usize::MAX,
    ensures
        diff_spec(read, buffer_lines(seeded_rows(read.entries_spec()))) == Ok::<PlanView, ErrView>(PlanView {
            dir: read.dir_spec(),
            dir_identity: read.dir_identity_spec(),
            ops: Seq::empty(),
            first_delete: 0,
            suppressed: 0,
        }),
{
    let entries = read.entries_spec();
    lemma_seeded_lines_parse(read.dir_spec(), entries, entries.len() as int);
    assert(seeded_rows(entries).take(entries.len() as int) =~= seeded_rows(entries));
    lemma_nothing_left_to_delete(read, entries.len() as int);
    let ops: Seq<OpView> = Seq::empty();
    assert(ops + ops + ops =~= ops);
}

// ---- a valid name stays a child

proof fn lemma_scalar_bytes(c: char)
    ensures
        encode_scalar(c as u32).len() >= 1,
        (c as u32) < 0x80 ==> encode_scalar(c as u32) == seq![(c as u32) as u8],
        (c as u32) >= 0x80 ==> forall|k: int| 0 <= k < encode_scalar(c as u32).len()
            ==> #[trigger] encode_scalar(c as u32)[k] >= 0x80,
{
    let v = c as u32;
    char_is_scalar(c);
    if has_width_1_encoding(v) {
        assert((v & 0x7f) == v) by (bit_vector)
            requires
                v <= 0x7f,
        ;
        assert(((v & 0x7f) as u8) == (v as u8));
    } else if has_width_2_encoding(v) {
        let a = ((v >> 6) & 0x1F) as u8;
        let b = (v & 0x3F) as u8;
        assert(0xC0u8 | a >= 0x80u8) by (bit_vector);
        assert(0x80u8 | b >= 0x80u8) by (bit_vector);
    } else if has_width_3_encoding(v) {
        let a = ((v >> 12) & 0x0F) as u8;
        let b = ((v >> 6) & 0x3F) as u8;
        let d = (v & 0x3F) as u8;
        assert(0xE0u8 | a >= 0x80u8) by (bit_vector);
        assert(0x80u8 | b >= 0x80u8) by (bit_vector);
        assert(0x80u8 | d >= 0x80u8) by (bit_vector);
    } else {
        let a = ((v >> 18) & 0x7) as u8;
        let b = ((v >> 12) & 0x3F) as u8;
        let d = ((v >> 6) & 0x3F) as u8;
        let e = (v & 0x3F) as u8;
        assert(0xF0u8 | a >= 0x80u8) by (bit_vector);
        assert(0x80u8 | b >= 0x80u8) by (bit_vector);
        assert(0x80u8 | d >= 0x80u8) by (bit_vector);
        assert(0x80u8 | e >= 0x80u8) by (bit_vector);
    }
}

proof fn lemma_encode_avoids(chars: Seq<char>, b: u8)
    requires
        b < 0x80,
        !chars.contains(b as char),
    ensures
        !encode_utf8(chars).contains(b),
        encode_utf8(chars).len() >= chars.len(),
    decreases chars.len(),
{
    if chars.len() > 0 {
        let c = chars[0];
        lemma_scalar_bytes(c);
        assert(!chars.drop_first().contains(b as char)) by {
            if chars.drop_first().contains(b as char) {
                let k = choose|k: int| 0 <= k < chars.drop_first().len() && chars.drop_first()[k] == b as char;
                assert(chars[k + 1] == b as char);
            }
        }
        lemma_encode_avoids(chars.drop_first(), b);
        let head = encode_scalar(c as u32);
        let tail = encode_utf8(chars.drop_first());
        assert(encode_utf8(chars) == head + tail);
        assert(c != b as char);
        if (c as u32) < 0x80 {
            assert((c as u32) as u8 != b) by {
                if (c as u32) as u8 == b {
                    assert(c as u32 == b as u32);
                    char_u32_cast(c, c as u32);
                }
            }
        }
        assert(!(head + tail).contains(b)) by {
            if (head + tail).contains(b) {
                let k = choose|k: int| 0 <= k < (head + tail).len() && (head + tail)[k] == b;
                if k < head.len() {
                    assert(head[k] == b);
                } else {
                    assert(tail[k - head.len()] == b);
                }
            }
        }
    }
}

proof fn lemma_encode_dot_front(chars: Seq<char>)
    requires
        chars.len() > 0,
        encode_utf8(chars)[0] == 0x2eu8,
    ensures
        chars[0] == '.',
        encode_utf8(chars) == seq![0x2eu8] + encode_utf8(chars.drop_first()),
{
    let c = chars[0];
    lemma_scalar_bytes(c);
    assert(encode_utf8(chars) == encode_scalar(c as u32) + encode_utf8(chars.drop_first()));
    assert((c as u32) < 0x80);
    assert((c as u32) as u8 == 0x2eu8);
    assert(c as u32 == 0x2e);
    char_u32_cast(c, c as u32);
}

proof fn lemma_encode_empty(chars: Seq<char>)
    requires
        encode_utf8(chars).len() == 0,
    ensures
        chars.len() == 0,
{
    if chars.len() > 0 {
        lemma_scalar_bytes(chars[0]);
        assert(encode_utf8(chars) == encode_scalar(chars[0] as u32) + encode_utf8(chars.drop_first()));
    }
}

/// A name [`validate_new_name`] accepts always lands directly inside the
/// listed directory: the join's last component is the name itself and its
/// parent is the directory. [`NameFault::Escapes`] is a barricade no valid
/// name reaches.
pub proof fn law_a_valid_name_never_escapes(dir: Seq<u8>, name: Seq<char>)
    requires
        name_fault(name) is None,
    ensures
        child_path_spec(dir, name) == Ok::<Seq<u8>, NameFault>(join(dir, encode_utf8(name))),
{
    let n = encode_utf8(name);
    assert(name.len() > 0) by {
        if name.len() == 0 {
            assert(all_whitespace(name));
        }
    }
    assert(('/' as u32) < 0x80);
    assert(('/' as u32) as u8 as char == '/');
    lemma_encode_avoids(name, 0x2fu8);
    assert(n.len() > 0);
    assert(n != seq![crate::path::dot()]) by {
        if n == seq![0x2eu8] {
            lemma_encode_dot_front(name);
            assert(encode_utf8(name.drop_first()).len() == 0);
            lemma_encode_empty(name.drop_first());
            assert(name =~= seq!['.']);
        }
    }
    assert(n != dotdot()) by {
        if n == seq![0x2eu8, 0x2eu8] {
            lemma_encode_dot_front(name);
            let rest = name.drop_first();
            assert(encode_utf8(rest) =~= seq![0x2eu8]);
            assert(rest.len() > 0) by {
                if rest.len() == 0 {
                    assert(encode_utf8(rest).len() == 0);
                }
            }
            lemma_encode_dot_front(rest);
            assert(encode_utf8(rest.drop_first()).len() == 0);
            lemma_encode_empty(rest.drop_first());
            assert(name =~= seq!['.', '.']);
        }
    }
    assert(crate::path::single_name(n));
    crate::path::lemma_join_single(dir, n);
    let cs = components(join(dir, n));
    assert(cs.drop_last() =~= components(dir));
}

} // verus!
