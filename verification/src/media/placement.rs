//! What a media box puts on the terminal, frame by frame.
//!
//! Two lifetimes are kept apart here. *Visibility* — which boxes have a live
//! placement — is exact: the frame boundary takes every placement off the
//! screen, and only a box painted in this frame is placed again, so nothing
//! is visible that was not placed in the frame the reader is looking at. At
//! most [`PLACEMENT_CAP`] boxes are placed in one frame; the next one takes
//! its text rung instead. *Residency* — whose pixel data the terminal still
//! holds — is the [`RasterCache`]'s byte budget, and a raster placed in this
//! frame is never evicted to make room for another.
//!
//! A scrolled box shows a contiguous slice of its rows; the placement is
//! sized to the visible rows and its source rectangle cropped to the same
//! fraction of the raster's own pixel height.

use vstd::prelude::*;
use crate::loader::MIB;
use crate::media::residency::{
    evict, exempt, find, law_a_pinned_raster_is_never_evicted, lemma_first_victim_bounds,
    lemma_position_bounds, nodes_distinct, total, without, RasterCache, Resident, Slot,
};

verus! {

/// At most this many media boxes are placed in one frame.
pub const PLACEMENT_CAP: usize = 32;

/// How many bytes of transmitted raster the terminal is asked to hold before
/// the least recently used one is freed.
pub const RASTER_BUDGET_BYTES: u64 = 64 * MIB;

/// The cell width in pixels assumed until the terminal says otherwise.
pub const FALLBACK_CELL_WIDTH_PX: u32 = 24;

/// The cell height in pixels assumed until the terminal says otherwise.
pub const FALLBACK_CELL_HEIGHT_PX: u32 = 48;

/// A rectangle of terminal cells.
#[derive(Debug, Clone, Copy, PartialEq, Eq, Structural)]
pub struct CellBox {
    pub x: u16,
    pub y: u16,
    pub width: u16,
    pub height: u16,
}

/// A rectangle of a raster's pixels.
#[derive(Debug, Clone, Copy, PartialEq, Eq, Structural)]
pub struct SourceRect {
    pub x: u32,
    pub y: u32,
    pub width: u32,
    pub height: u32,
}

// ---------------------------------------------------------------- cropping

pub open spec fn at_least_one(n: u16) -> int {
    if n == 0 { 1 } else { n as int }
}

/// The slice of a `rows`-cell-tall box's raster that `visible` rows from box
/// row `top_skip` show, in raster pixels; `None` for the whole raster — the
/// box is entirely on screen, or the raster has no measurable size.
pub open spec fn crop_spec(raster_px: (u32, u32), rows: u16, top_skip: u16, visible: u16) -> Option<SourceRect> {
    if top_skip == 0 && visible >= rows {
        None
    } else if raster_px.0 == 0 || raster_px.1 == 0 {
        None
    } else {
        let n = at_least_one(rows);
        let h = raster_px.1 as int;
        let top = top_skip as int * h / n;
        let below = (top_skip as int + at_least_one(visible)) * h / n;
        let bottom = if below < h { below } else { h };
        let height = if bottom - top > 1 { bottom - top } else { 1 };
        Some(SourceRect { x: 0, y: top as u32, width: raster_px.0, height: height as u32 })
    }
}

/// The source rectangle for a box `rows` cells tall of which `visible` rows
/// are on screen from box row `top_skip`: proportional to the raster's own
/// height, so it is right for any cell size.
pub fn crop_source(raster_px: (u32, u32), rows: u16, top_skip: u16, visible: u16) -> (r: Option<SourceRect>)
    requires
        top_skip as int * raster_px.1 as int / at_least_one(rows) <= u32::MAX,
    ensures
        r == crop_spec(raster_px, rows, top_skip, visible),
{
    if top_skip == 0 && visible >= rows {
        return None;
    }
    let (w, h) = raster_px;
    if w == 0 || h == 0 {
        return None;
    }
    let n: u64 = if rows == 0 { 1 } else { rows as u64 };
    let v: u64 = if visible == 0 { 1 } else { visible as u64 };
    let h64 = h as u64;
    let ts = top_skip as u64;
    assert(ts * h64 <= 0xffff * 0xffff_ffff) by (nonlinear_arith)
        requires
            ts <= 0xffff,
            h64 <= 0xffff_ffff,
    ;
    assert((ts + v) * h64 <= 0x1_fffe * 0xffff_ffff) by (nonlinear_arith)
        requires
            ts + v <= 0x1_fffe,
            h64 <= 0xffff_ffff,
    ;
    let top = ts * h64 / n;
    let below = (ts + v) * h64 / n;
    let bottom = if below < h64 { below } else { h64 };
    let height = if bottom > top && bottom - top > 1 { bottom - top } else { 1 };
    Some(SourceRect { x: 0, y: top as u32, width: w, height: height as u32 })
}

/// Where on screen a placement goes and which slice of the raster it shows,
/// for a box `box_rows` tall painted from its row `box_row` into `rect`:
/// the placement is as tall as the box's visible remainder.
pub open spec fn placement_geometry(raster_px: (u32, u32), box_rows: u16, box_row: u16, rect: CellBox) -> (CellBox, Option<SourceRect>) {
    let rows = at_least_one(box_rows);
    let top_skip = if (box_row as int) < rows - 1 { box_row as int } else { rows - 1 };
    let tall = at_least_one(rect.height);
    let visible = if tall < rows - top_skip { tall } else { rows - top_skip };
    (
        CellBox { x: rect.x, y: rect.y, width: rect.width, height: visible as u16 },
        crop_spec(raster_px, rows as u16, top_skip as u16, visible as u16),
    )
}

proof fn lemma_scaled_below(a: int, h: int, n: int)
    requires
        0 <= a < n,
        0 <= h,
    ensures
        a * h / n <= h,
{
    assert(a * h <= n * h) by (nonlinear_arith)
        requires
            0 <= a < n,
            0 <= h,
    ;
    assert(a * h / n <= n * h / n) by (nonlinear_arith)
        requires
            a * h <= n * h,
            0 < n,
    ;
    assert(n * h / n == h) by (nonlinear_arith)
        requires
            0 < n,
    ;
}

fn geometry(raster_px: (u32, u32), box_rows: u16, box_row: u16, rect: CellBox) -> (g: (CellBox, Option<SourceRect>))
    ensures
        g == placement_geometry(raster_px, box_rows, box_row, rect),
{
    let rows: u16 = if box_rows == 0 { 1 } else { box_rows };
    let top_skip: u16 = if box_row < rows - 1 { box_row } else { rows - 1 };
    let tall: u16 = if rect.height == 0 { 1 } else { rect.height };
    let visible: u16 = if tall < rows - top_skip { tall } else { rows - top_skip };
    proof {
        lemma_scaled_below(top_skip as int, raster_px.1 as int, rows as int);
    }
    let cells = CellBox { x: rect.x, y: rect.y, width: rect.width, height: visible };
    (cells, crop_source(raster_px, rows, top_skip, visible))
}

// ---------------------------------------------------------------- PNG size

/// The eight bytes every PNG starts with.
pub open spec fn png_signature() -> Seq<u8> {
    seq![0x89u8, 0x50u8, 0x4eu8, 0x47u8, 0x0du8, 0x0au8, 0x1au8, 0x0au8]
}

/// The name of the header chunk, which must come first.
pub open spec fn ihdr() -> Seq<u8> {
    seq![0x49u8, 0x48u8, 0x44u8, 0x52u8]
}

/// The big-endian 32-bit number in `b` at `at`.
pub open spec fn be_u32(b: Seq<u8>, at: int) -> int {
    b[at] as int * 0x100_0000 + b[at + 1] as int * 0x1_0000 + b[at + 2] as int * 0x100 + b[at + 3] as int
}

/// The `(width, height)` a PNG's header chunk declares: both must be nonzero,
/// and the bytes must open with the signature and the `IHDR` chunk.
pub open spec fn png_size_spec(png: Seq<u8>) -> Option<(u32, u32)> {
    if png.len() < 24 || png.take(8) != png_signature() || png.subrange(12, 16) != ihdr() {
        None
    } else if be_u32(png, 16) > 0 && be_u32(png, 20) > 0 {
        Some((be_u32(png, 16) as u32, be_u32(png, 20) as u32))
    } else {
        None
    }
}

fn read_be_u32(b: &[u8], at: usize) -> (n: u32)
    requires
        at + 4 <= b@.len(),
    ensures
        n as int == be_u32(b@, at as int),
{
    let n = (b[at] as u32) * 0x100_0000 + (b[at + 1] as u32) * 0x1_0000 + (b[at + 2] as u32) * 0x100 + (b[at + 3] as u32);
    n
}

/// Reads `(width, height)` out of a PNG's header chunk, which the format
/// requires to follow the 8-byte signature immediately.
pub fn png_pixel_size(png: &[u8]) -> (r: Option<(u32, u32)>)
    ensures
        r == png_size_spec(png@),
{
    if png.len() < 24 {
        return None;
    }
    let sig: [u8; 8] = [0x89, 0x50, 0x4e, 0x47, 0x0d, 0x0a, 0x1a, 0x0a];
    let name: [u8; 4] = [0x49, 0x48, 0x44, 0x52];
    let mut i: usize = 0;
    while i < 8
        invariant
            i <= 8,
            png@.len() >= 24,
            sig@ == png_signature(),
            forall|k: int| 0 <= k < i ==> png@[k] == sig@[k],
        decreases 8 - i,
    {
        if png[i] != sig[i] {
            assert(png@.take(8)[i as int] != png_signature()[i as int]);
            return None;
        }
        i = i + 1;
    }
    assert(png@.take(8) =~= png_signature());
    let mut j: usize = 0;
    while j < 4
        invariant
            j <= 4,
            png@.len() >= 24,
            name@ == ihdr(),
            forall|k: int| 0 <= k < j ==> png@[12 + k] == name@[k],
        decreases 4 - j,
    {
        if png[12 + j] != name[j] {
            assert(png@.subrange(12, 16)[j as int] != ihdr()[j as int]);
            return None;
        }
        j = j + 1;
    }
    assert(png@.subrange(12, 16) =~= ihdr());
    let width = read_be_u32(png, 16);
    let height = read_be_u32(png, 20);
    if width > 0 && height > 0 {
        Some((width, height))
    } else {
        None
    }
}

// ---------------------------------------------------------------- text rungs

/// Which line of a text rung belongs on the box row being painted: a
/// multi-line rung is a picture, so its line `k` is box row `k`; a
/// single-line rung stays on the box's first visible row.
pub open spec fn rung_index(lines: nat, box_row: u16, nth_paint: u16) -> int {
    if lines > 1 { box_row as int } else { nth_paint as int }
}

/// The line of `lines` to paint on this row of the box, if it has one.
pub fn text_rung_line(lines: &[String], box_row: u16, nth_paint: u16) -> (r: Option<&String>)
    ensures
        ({
            let k = rung_index(lines@.len(), box_row, nth_paint);
            if k < lines@.len() { r == Some(&lines@[k]) } else { r is None }
        }),
{
    let index: usize = if lines.len() > 1 { box_row as usize } else { nth_paint as usize };
    if index < lines.len() {
        Some(&lines[index])
    } else {
        None
    }
}


// ---------------------------------------------------------------- the frame

/// Whether `s` holds a raster for node `n`.
pub open spec fn holds_node(s: Seq<Slot>, n: u64) -> bool {
    exists|k: int| 0 <= k < s.len() && (#[trigger] s[k]).0 == n
}

/// Whether some raster in `s` is image `id`.
pub open spec fn holds_image(s: Seq<Slot>, id: u32) -> bool {
    exists|k: int| 0 <= k < s.len() && (#[trigger] s[k]).1.id == id
}

/// Whether no two rasters in `s` share an image number.
pub open spec fn images_distinct(s: Seq<Slot>) -> bool {
    forall|i: int, j: int| 0 <= i < j < s.len() ==> s[i].1.id != s[j].1.id
}

/// Whether no node occurs twice in `p`.
pub open spec fn placed_distinct(p: Seq<u64>) -> bool {
    forall|i: int, j: int| 0 <= i < j < p.len() ==> p[i] != p[j]
}

/// The image number `s` holds for node `n`.
pub open spec fn image_of(s: Seq<Slot>, n: u64) -> u32 {
    s[find(s, n)->0].1.id
}

/// A [`Frame`], as a value.
pub ghost struct FrameView {
    /// The rasters the terminal holds, least recently used first.
    pub resident: Seq<Slot>,
    /// The nodes placed in this frame, in paint order.
    pub placed: Seq<u64>,
    /// The byte budget the rasters are kept within.
    pub budget: u64,
    /// The cell size in pixels rasters are rendered for.
    pub cell_px: (u32, u32),
}

/// What holds of a frame at every step: no node or image number twice, no
/// more than [`PLACEMENT_CAP`] placements, every placed node's raster
/// resident, and a cell size with no zero axis.
pub open spec fn frame_consistent(v: FrameView) -> bool {
    &&& nodes_distinct(v.resident)
    &&& images_distinct(v.resident)
    &&& placed_distinct(v.placed)
    &&& v.placed.len() <= PLACEMENT_CAP
    &&& forall|k: int| 0 <= k < v.placed.len() ==> holds_node(v.resident, #[trigger] v.placed[k])
    &&& v.cell_px.0 > 0 && v.cell_px.1 > 0
}

/// Whether `node` can be placed in this frame: it already is, or the cap is
/// not yet spent.
pub open spec fn has_slot_spec(v: FrameView, node: u64) -> bool {
    v.placed.contains(node) || v.placed.len() < PLACEMENT_CAP
}

/// `p` with `n` placed, once.
pub open spec fn placed_with(p: Seq<u64>, n: u64) -> Seq<u64> {
    if p.contains(n) { p } else { p.push(n) }
}

/// `p` with `n` no longer placed.
pub open spec fn unplaced(p: Seq<u64>, n: u64) -> Seq<u64> {
    if p.contains(n) { p.remove(choose|i: int| 0 <= i < p.len() && p[i] == n) } else { p }
}

/// One placement to put on the terminal: image `id` in `cells`, showing
/// `source` of its raster (all of it when `None`).
#[derive(Debug, Clone, Copy, PartialEq, Eq)]
pub struct Placement {
    pub id: u32,
    pub cells: CellBox,
    pub source: Option<SourceRect>,
}

/// The placement of image `id`, whose raster is `raster_px`, for a box
/// `box_rows` tall painted from its row `box_row` into `rect`.
pub open spec fn placement_for(id: u32, raster_px: (u32, u32), box_rows: u16, box_row: u16, rect: CellBox) -> Placement {
    let g = placement_geometry(raster_px, box_rows, box_row, rect);
    Placement { id, cells: g.0, source: g.1 }
}

/// What a transmit hands the terminal besides the image itself: the images
/// the budget evicted to make room, to free first, and the placement.
#[derive(Debug)]
pub struct Transmission {
    pub freed: Vec<u32>,
    pub placement: Placement,
}

/// The record a transmitted `png` makes as image `id`, requested at
/// `target`: its real size is measured from its header, and the request
/// stands in when the header cannot be read.
pub open spec fn record_for(id: u32, png: Seq<u8>, target: (u32, u32)) -> Resident {
    Resident {
        id,
        rendered_px: target,
        raster_px: match png_size_spec(png) { Some(p) => p, None => target },
        bytes: png.len() as u64,
    }
}

proof fn lemma_holds_find(s: Seq<Slot>, n: u64)
    ensures
        holds_node(s, n) <==> find(s, n) is Some,
        find(s, n) matches Some(k) ==> 0 <= k < s.len() && s[k].0 == n,
{
    lemma_position_bounds(s, n, s.len() as int);
    if let Some(k) = find(s, n) {
        assert(s[k].0 == n);
    }
}

proof fn lemma_remove_slot(s: Seq<Slot>, i: int)
    requires
        0 <= i < s.len(),
    ensures
        images_distinct(s) ==> images_distinct(s.remove(i)),
        images_distinct(s) ==> !holds_image(s.remove(i), s[i].1.id),
        forall|n: u64| holds_node(s, n) && s[i].0 != n ==> holds_node(#[trigger] s.remove(i), n),
        forall|n: u64| holds_node(#[trigger] s.remove(i), n) ==> holds_node(s, n),
        forall|id: u32| holds_image(#[trigger] s.remove(i), id) ==> holds_image(s, id),
{
    let r = s.remove(i);
    if images_distinct(s) {
        assert forall|a: int, b: int| 0 <= a < b < r.len() implies r[a].1.id != r[b].1.id by {
            let a2 = if a < i { a } else { a + 1 };
            let b2 = if b < i { b } else { b + 1 };
            assert(r[a] == s[a2] && r[b] == s[b2]);
        }
        if holds_image(r, s[i].1.id) {
            let k = choose|k: int| 0 <= k < r.len() && (#[trigger] r[k]).1.id == s[i].1.id;
            let k2 = if k < i { k } else { k + 1 };
            assert(r[k] == s[k2]);
        }
    }
    assert forall|n: u64| holds_node(s, n) && s[i].0 != n implies holds_node(#[trigger] s.remove(i), n) by {
        let k = choose|k: int| 0 <= k < s.len() && (#[trigger] s[k]).0 == n;
        let k2 = if k < i { k } else { k - 1 };
        assert(r[k2] == s[k]);
    }
    assert forall|n: u64| holds_node(#[trigger] s.remove(i), n) implies holds_node(s, n) by {
        let k = choose|k: int| 0 <= k < r.len() && (#[trigger] r[k]).0 == n;
        let k2 = if k < i { k } else { k + 1 };
        assert(r[k] == s[k2]);
    }
    assert forall|id: u32| holds_image(#[trigger] s.remove(i), id) implies holds_image(s, id) by {
        let k = choose|k: int| 0 <= k < r.len() && (#[trigger] r[k]).1.id == id;
        let k2 = if k < i { k } else { k + 1 };
        assert(r[k] == s[k2]);
    }
}

proof fn lemma_push_slot(s: Seq<Slot>, x: Slot)
    requires
        images_distinct(s),
        !holds_image(s, x.1.id),
    ensures
        images_distinct(s.push(x)),
        holds_node(s.push(x), x.0),
        forall|n: u64| holds_node(s, n) ==> holds_node(#[trigger] s.push(x), n),
{
    let t = s.push(x);
    assert forall|a: int, b: int| 0 <= a < b < t.len() implies t[a].1.id != t[b].1.id by {
        assert(t[a] == s[a]);
        if b < s.len() {
            assert(t[b] == s[b]);
        } else {
            assert(s[a].1.id != x.1.id);
        }
    }
    assert(t[s.len() as int] == x);
    assert forall|n: u64| holds_node(s, n) implies holds_node(#[trigger] s.push(x), n) by {
        let k = choose|k: int| 0 <= k < s.len() && (#[trigger] s[k]).0 == n;
        assert(t[k] == s[k]);
    }
}

proof fn lemma_evict_images(s: Seq<Slot>, node: u64, pinned: Seq<u64>, budget: u64)
    requires
        images_distinct(s),
    ensures
        images_distinct(evict(s, node, pinned, budget).0),
    decreases s.len(),
{
    if total(s) > budget {
        lemma_first_victim_bounds(s, node, pinned, s.len() as int);
        if let Some(i) = crate::media::residency::first_victim(s, node, pinned, s.len() as int) {
            lemma_remove_slot(s, i);
            lemma_evict_images(s.remove(i), node, pinned, budget);
        }
    }
}

proof fn lemma_kept_holds(kept: Seq<Slot>, x: Slot)
    requires
        kept.contains(x),
    ensures
        holds_node(kept, x.0),
{
    let k = choose|k: int| 0 <= k < kept.len() && kept[k] == x;
    assert(kept[k].0 == x.0);
}

/// A box already placed in this frame never loses its raster to the budget:
/// whatever a transmit evicts, every placed node — and the node being
/// transmitted — is still resident afterwards.
pub proof fn law_a_box_on_screen_keeps_its_raster(v: FrameView, node: u64, record: Resident)
    requires
        frame_consistent(v),
    ensures
        ({
            let kept = evict(without(v.resident, node).push((node, record)), node, v.placed, v.budget).0;
            &&& holds_node(kept, node)
            &&& forall|k: int| 0 <= k < v.placed.len() ==> holds_node(kept, #[trigger] v.placed[k])
        }),
{
    let s = v.resident;
    let w = without(s, node);
    let start = w.push((node, record));
    let kept = evict(start, node, v.placed, v.budget).0;
    law_a_pinned_raster_is_never_evicted(start, node, v.placed, v.budget);
    lemma_holds_find(s, node);
    assert(start[w.len() as int] == (node, record));
    assert(exempt(start[w.len() as int], node, v.placed));
    lemma_kept_holds(kept, (node, record));
    assert forall|k: int| 0 <= k < v.placed.len() implies holds_node(kept, #[trigger] v.placed[k]) by {
        let p = v.placed[k];
        if p == node {
        } else {
            assert(holds_node(s, p));
            if let Some(i) = find(s, node) {
                lemma_remove_slot(s, i);
                assert(s[i].0 != p);
            }
            assert(holds_node(w, p));
            let j = choose|j: int| 0 <= j < w.len() && (#[trigger] w[j]).0 == p;
            assert(start[j] == w[j]);
            assert(v.placed.contains(p));
            assert(exempt(start[j], node, v.placed));
            lemma_kept_holds(kept, start[j]);
        }
    }
}

/// What is placed after a frame boundary once the boxes `painted` have been
/// placed, in that order.
pub open spec fn placed_after(painted: Seq<u64>) -> Seq<u64>
    decreases painted.len(),
{
    if painted.len() == 0 {
        Seq::empty()
    } else {
        placed_with(placed_after(painted.drop_last()), painted.last())
    }
}

/// Nothing is placed in a frame that was not painted in it: starting from
/// the empty set a frame boundary leaves, placing the boxes `painted` places
/// each of them once and nothing else.
pub proof fn law_only_what_this_frame_painted_is_placed(painted: Seq<u64>)
    ensures
        forall|k: int| 0 <= k < placed_after(painted).len() ==> painted.contains(#[trigger] placed_after(painted)[k]),
        forall|k: int| 0 <= k < painted.len() ==> placed_after(painted).contains(#[trigger] painted[k]),
        placed_distinct(placed_after(painted)),
        placed_after(painted).len() <= painted.len(),
    decreases painted.len(),
{
    if painted.len() > 0 {
        let before = painted.drop_last();
        let n = painted.last();
        law_only_what_this_frame_painted_is_placed(before);
        let p = placed_after(before);
        let q = placed_after(painted);
        assert forall|k: int| 0 <= k < q.len() implies painted.contains(#[trigger] q[k]) by {
            if k < p.len() {
                assert(q[k] == p[k]);
                let j = choose|j: int| 0 <= j < before.len() && before[j] == p[k];
                assert(painted[j] == before[j]);
            } else {
                assert(q[k] == n);
                assert(painted[painted.len() - 1] == n);
            }
        }
        assert forall|k: int| 0 <= k < painted.len() implies q.contains(#[trigger] painted[k]) by {
            if k < before.len() {
                assert(painted[k] == before[k]);
                assert(p.contains(before[k]));
                let j = choose|j: int| 0 <= j < p.len() && p[j] == before[k];
                assert(q[j] == p[j]);
            } else if p.contains(n) {
            } else {
                assert(q[p.len() as int] == n);
            }
        }
        if !p.contains(n) {
            assert forall|a: int, b: int| 0 <= a < b < q.len() implies q[a] != q[b] by {
                if b == p.len() {
                    assert(q[a] == p[a]);
                    assert(p.contains(p[a]));
                } else {
                    assert(q[a] == p[a] && q[b] == p[b]);
                }
            }
        }
    }
}

/// What the terminal is showing and holding for a document's media boxes.
#[derive(Debug)]
pub struct Frame {
    cache: RasterCache,
    placed: Vec<u64>,
    cell_px: (u32, u32),
}

impl View for Frame {
    type V = FrameView;

    closed spec fn view(&self) -> FrameView {
        FrameView {
            resident: self.cache@,
            placed: self.placed@,
            budget: self.cache.budget_spec(),
            cell_px: self.cell_px,
        }
    }
}

impl Frame {
    /// Whether the frame's bookkeeping is consistent.
    pub closed spec fn wf(&self) -> bool {
        &&& self.cache.wf()
        &&& frame_consistent(self@)
    }

    /// Every frame every operation leaves is consistent: no node or image
    /// number twice, at most [`PLACEMENT_CAP`] boxes placed, and every placed
    /// box's raster resident.
    pub proof fn law_the_frame_stays_consistent(&self)
        requires
            self.wf(),
        ensures
            frame_consistent(self@),
    {
    }

    /// Nothing placed, nothing resident, rasters kept within `budget` bytes,
    /// and the fallback cell size until the terminal reports its own.
    pub fn new(budget: u64) -> (f: Frame)
        ensures
            f.wf(),
            f@ == (FrameView {
                resident: Seq::empty(),
                placed: Seq::empty(),
                budget,
                cell_px: (FALLBACK_CELL_WIDTH_PX, FALLBACK_CELL_HEIGHT_PX),
            }),
    {
        Frame {
            cache: RasterCache::new(budget),
            placed: Vec::new(),
            cell_px: (FALLBACK_CELL_WIDTH_PX, FALLBACK_CELL_HEIGHT_PX),
        }
    }

    /// The cell size rasters are rendered for.
    pub fn cell_px(&self) -> (c: (u32, u32))
        ensures
            c == self@.cell_px,
    {
        self.cell_px
    }

    /// Takes the terminal's cell size; one with a zero axis is refused, since
    /// it would render every raster a pixel wide.
    pub fn set_cell_px(&mut self, cell_px: (u32, u32))
        requires
            old(self).wf(),
        ensures
            final(self).wf(),
            final(self)@ == (FrameView {
                cell_px: if cell_px.0 == 0 || cell_px.1 == 0 { old(self)@.cell_px } else { cell_px },
                ..old(self)@
            }),
    {
        if cell_px.0 == 0 || cell_px.1 == 0 {
            return;
        }
        self.cell_px = cell_px;
    }

    /// The raster size in pixels for a box `width` cells wide and `rows`
    /// tall: resolution only, never geometry.
    pub fn target_px(&self, width: u16, rows: u16) -> (t: (u32, u32))
        requires
            at_least_one(width) * self@.cell_px.0 <= u32::MAX,
            at_least_one(rows) * self@.cell_px.1 <= u32::MAX,
        ensures
            t.0 == at_least_one(width) * self@.cell_px.0,
            t.1 == at_least_one(rows) * self@.cell_px.1,
    {
        let w: u32 = if width == 0 { 1 } else { width as u32 };
        let r: u32 = if rows == 0 { 1 } else { rows as u32 };
        (w * self.cell_px.0, r * self.cell_px.1)
    }

    /// Whether `node` can be placed in this frame.
    pub fn has_slot(&self, node: u64) -> (r: bool)
        requires
            self.wf(),
        ensures
            r == has_slot_spec(self@, node),
    {
        self.placed.len() < PLACEMENT_CAP || self.is_placed(node)
    }

    /// Whether `node` is placed in this frame.
    pub fn is_placed(&self, node: u64) -> (r: bool)
        ensures
            r == self@.placed.contains(node),
    {
        let mut i: usize = 0;
        while i < self.placed.len()
            invariant
                i <= self.placed@.len(),
                forall|k: int| 0 <= k < i ==> self.placed@[k] != node,
            decreases self.placed@.len() - i,
        {
            if self.placed[i] == node {
                assert(self.placed@[i as int] == node);
                return true;
            }
            i = i + 1;
        }
        false
    }

    /// How many boxes are placed in this frame.
    pub fn placed_count(&self) -> (n: usize)
        ensures
            n == self@.placed.len(),
    {
        self.placed.len()
    }

    /// The image number of `node`'s resident raster, if it has one.
    pub fn image_for(&self, node: u64) -> (r: Option<u32>)
        requires
            self.wf(),
        ensures
            r == (if holds_node(self@.resident, node) { Some(image_of(self@.resident, node)) } else { None }),
    {
        proof { lemma_holds_find(self@.resident, node); }
        match self.cache.peek(node) {
            Some(r) => Some(r.id),
            None => None,
        }
    }

    /// Whether some resident raster is image `id`: a fresh image number
    /// must not be one of these.
    pub fn holds_image(&self, id: u32) -> (r: bool)
        ensures
            r == holds_image(self@.resident, id),
    {
        self.cache.holds_id(id)
    }

    /// How many bytes of raster the terminal holds for this frame's document.
    pub fn resident_bytes(&self) -> (n: u64)
        requires
            self.wf(),
        ensures
            n == total(self@.resident),
    {
        self.cache.bytes_resident()
    }

    /// Starts a frame: every live placement comes off the screen, its raster
    /// kept, so that nothing is visible at the end of this frame that was not
    /// placed in it. Hands back the images to unplace, in paint order.
    pub fn begin_frame(&mut self) -> (unplace: Vec<u32>)
        requires
            old(self).wf(),
        ensures
            final(self).wf(),
            final(self)@ == (FrameView { placed: Seq::empty(), ..old(self)@ }),
            unplace@ == Seq::new(old(self)@.placed.len(), |k: int| image_of(old(self)@.resident, old(self)@.placed[k])),
    {
        let mut unplace: Vec<u32> = Vec::new();
        let mut i: usize = 0;
        while i < self.placed.len()
            invariant
                self.wf(),
                self@ == old(self)@,
                i <= self.placed@.len(),
                unplace@ =~= Seq::new(i as nat, |k: int| image_of(self@.resident, self@.placed[k])),
            decreases self.placed@.len() - i,
        {
            let node = self.placed[i];
            proof {
                lemma_holds_find(self@.resident, node);
                assert(holds_node(self@.resident, self@.placed[i as int]));
            }
            match self.cache.peek(node) {
                Some(r) => unplace.push(r.id),
                None => {},
            }
            i = i + 1;
        }
        self.placed = Vec::new();
        unplace
    }

    fn mark_placed(&mut self, node: u64)
        requires
            old(self).cache.wf(),
            frame_consistent(old(self)@),
            holds_node(old(self)@.resident, node),
            has_slot_spec(old(self)@, node),
        ensures
            final(self).wf(),
            final(self)@ == (FrameView { placed: placed_with(old(self)@.placed, node), ..old(self)@ }),
    {
        if !self.is_placed(node) {
            let ghost p = self.placed@;
            self.placed.push(node);
            assert forall|a: int, b: int| 0 <= a < b < self.placed@.len() implies self.placed@[a] != self.placed@[b] by {
                if b == p.len() {
                    assert(self.placed@[a] == p[a]);
                    assert(p.contains(p[a]));
                }
            }
            assert forall|k: int| 0 <= k < self.placed@.len() implies holds_node(self@.resident, #[trigger] self.placed@[k]) by {
                if k < p.len() {
                    assert(self.placed@[k] == p[k]);
                }
            }
        }
    }

    /// Re-places `node`'s resident raster if it was rendered for `target`
    /// and the frame has a placement to give it; anything else is a miss and
    /// changes nothing. A hit moves the raster to most recently used.
    pub fn replace_if_cached(&mut self, node: u64, target: (u32, u32), box_rows: u16, box_row: u16, rect: CellBox) -> (r: Option<Placement>)
        requires
            old(self).wf(),
        ensures
            final(self).wf(),
            match find(old(self)@.resident, node) {
                Some(i) => if has_slot_spec(old(self)@, node) && old(self)@.resident[i].1.rendered_px == target {
                    &&& final(self)@ == (FrameView {
                        resident: old(self)@.resident.remove(i).push(old(self)@.resident[i]),
                        placed: placed_with(old(self)@.placed, node),
                        ..old(self)@
                    })
                    &&& r == Some(placement_for(old(self)@.resident[i].1.id, old(self)@.resident[i].1.raster_px, box_rows, box_row, rect))
                } else {
                    r is None && final(self)@ == old(self)@
                },
                None => r is None && final(self)@ == old(self)@,
            },
    {
        if !self.has_slot(node) {
            return None;
        }
        let ghost s = self@.resident;
        proof { lemma_holds_find(s, node); }
        match self.cache.get(node, target) {
            None => None,
            Some(rec) => {
                proof {
                    let i = find(s, node)->0;
                    lemma_remove_slot(s, i);
                    lemma_push_slot(s.remove(i), s[i]);
                    self.cache.lemma_distinct();
                    assert forall|k: int| 0 <= k < self@.placed.len() implies holds_node(self@.resident, #[trigger] self@.placed[k]) by {
                        let p = self@.placed[k];
                        assert(holds_node(s, p));
                        if p != s[i].0 {
                            assert(holds_node(s.remove(i), p));
                        }
                    }
                }
                self.mark_placed(node);
                let g = geometry(rec.raster_px, box_rows, box_row, rect);
                Some(Placement { id: rec.id, cells: g.0, source: g.1 })
            },
        }
    }

    /// Records `png` as `node`'s raster and places it — unless the frame's
    /// placements are spent, when nothing changes and the box takes its text
    /// rung. The raster keeps `node`'s image number if it had one and takes
    /// `fresh` otherwise; the budget's evictions, which never touch a placed
    /// node, come back to be freed first.
    pub fn transmit_and_place(
        &mut self,
        node: u64,
        fresh: u32,
        png: &[u8],
        target: (u32, u32),
        box_rows: u16,
        box_row: u16,
        rect: CellBox,
    ) -> (r: Option<Transmission>)
        requires
            old(self).wf(),
            !holds_node(old(self)@.resident, node) ==> !holds_image(old(self)@.resident, fresh),
            total(without(old(self)@.resident, node)) + png@.len() <= u64::MAX,
        ensures
            final(self).wf(),
            !has_slot_spec(old(self)@, node) ==> r is None && final(self)@ == old(self)@,
            has_slot_spec(old(self)@, node) ==> ({
                let id = if holds_node(old(self)@.resident, node) { image_of(old(self)@.resident, node) } else { fresh };
                let rec = record_for(id, png@, target);
                let (kept, gone) = evict(without(old(self)@.resident, node).push((node, rec)), node, old(self)@.placed, old(self)@.budget);
                &&& final(self)@ == (FrameView { resident: kept, placed: placed_with(old(self)@.placed, node), ..old(self)@ })
                &&& r matches Some(t) && t.freed@ == gone && t.placement == placement_for(id, rec.raster_px, box_rows, box_row, rect)
            }),
    {
        if !self.has_slot(node) {
            return None;
        }
        let ghost v = self@;
        let ghost s = self@.resident;
        proof { lemma_holds_find(s, node); }
        let id = match self.cache.peek(node) {
            Some(r) => r.id,
            None => fresh,
        };
        let raster_px = match png_pixel_size(png) {
            Some(p) => p,
            None => target,
        };
        let rec = Resident::new(id, target, raster_px, png.len() as u64);
        assert(rec == record_for(id, png@, target));
        let pinned = self.placed.clone();
        assert(pinned@ == v.placed);
        let freed = self.cache.insert(node, rec, pinned.as_slice());
        proof {
            let w = without(s, node);
            let start = w.push((node, rec));
            match find(s, node) {
                Some(i) => {
                    lemma_remove_slot(s, i);
                    assert(image_of(s, node) == s[i].1.id);
                },
                None => {},
            }
            assert(images_distinct(w));
            assert(!holds_image(w, id)) by {
                if let Some(i) = find(s, node) {
                } else {
                    assert(w == s);
                }
            }
            lemma_push_slot(w, (node, rec));
            lemma_evict_images(start, node, v.placed, v.budget);
            law_a_box_on_screen_keeps_its_raster(v, node, rec);
            self.cache.lemma_distinct();
        }
        self.mark_placed(node);
        let g = geometry(raster_px, box_rows, box_row, rect);
        Some(Transmission { freed, placement: Placement { id, cells: g.0, source: g.1 } })
    }

    /// Drops `node` entirely — its placement and its raster — and hands back
    /// the image to free, if it had one. Coming back costs it a transmit and a
    /// fresh image number.
    pub fn delete(&mut self, node: u64) -> (r: Option<u32>)
        requires
            old(self).wf(),
        ensures
            final(self).wf(),
            final(self)@ == (FrameView {
                resident: without(old(self)@.resident, node),
                placed: unplaced(old(self)@.placed, node),
                ..old(self)@
            }),
            r == (if holds_node(old(self)@.resident, node) { Some(image_of(old(self)@.resident, node)) } else { None }),
    {
        let ghost s = self@.resident;
        let ghost p = self@.placed;
        proof { lemma_holds_find(s, node); }
        let r = self.cache.remove(node);
        proof {
            if let Some(i) = find(s, node) {
                lemma_remove_slot(s, i);
            }
            self.cache.lemma_distinct();
        }
        let mut i: usize = 0;
        while i < self.placed.len() && self.placed[i] != node
            invariant
                self.placed@ == p,
                i <= p.len(),
                forall|k: int| 0 <= k < i ==> p[k] != node,
            decreases p.len() - i,
        {
            i = i + 1;
        }
        if i < self.placed.len() {
            proof {
                assert(p[i as int] == node);
                assert(p.contains(node));
                let c = choose|j: int| 0 <= j < p.len() && p[j] == node;
                assert(c == i as int);
            }
            self.placed.remove(i);
        } else {
            assert(!p.contains(node));
        }
        proof {
            let q = self.placed@;
            assert(q == unplaced(p, node));
            assert forall|k: int| 0 <= k < q.len() implies holds_node(self@.resident, #[trigger] q[k]) by {
                let k2 = if (i as int) < p.len() && k >= i { k + 1 } else { k };
                assert(q[k] == p[k2]);
                assert(p[k2] != node);
                assert(holds_node(s, p[k2]));
            }
            assert forall|a: int, b: int| 0 <= a < b < q.len() implies q[a] != q[b] by {
                let a2 = if (i as int) < p.len() && a >= i { a + 1 } else { a };
                let b2 = if (i as int) < p.len() && b >= i { b + 1 } else { b };
                assert(q[a] == p[a2] && q[b] == p[b2]);
            }
        }
        r
    }

    /// Forgets every node, screen and raster both, for a document whose nodes
    /// are numbered afresh; hands back every image to free, least recently
    /// used first.
    pub fn reload(&mut self) -> (freed: Vec<u32>)
        requires
            old(self).wf(),
        ensures
            final(self).wf(),
            final(self)@ == (FrameView { resident: Seq::empty(), placed: Seq::empty(), ..old(self)@ }),
            freed@ == Seq::new(old(self)@.resident.len(), |k: int| old(self)@.resident[k].1.id),
    {
        let freed = self.cache.drain();
        self.placed = Vec::new();
        freed
    }

    /// How many nodes have a resident raster.
    pub fn resident_count(&self) -> (n: usize)
        ensures
            n == self@.resident.len(),
    {
        self.cache.len()
    }
}

} // verus!
