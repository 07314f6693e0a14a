//! Unix paths as the bytes the kernel sees, and the component reading of
//! them that `std::path` applies on Unix: a leading `/` is the root, empty
//! segments and interior `.` segments vanish, a leading `.` of a relative
//! path survives as the current directory, `..` is a parent step.
//!
//! Two paths are the same path when their components are the same — which is
//! what `Path`'s equality means — so `a//b`, `a/./b` and `a/b/` all name
//! `a/b`.

use vstd::prelude::*;
use crate::text::{bytes_eq, slice_bytes};

verus! {

/// One component of a path.
pub ghost enum Comp {
    Root,
    Cur,
    Parent,
    Normal(Seq<u8>),
}

/// One component of a path, as an executable value.
#[derive(Debug, Clone, PartialEq, Eq)]
pub enum Component {
    RootDir,
    CurDir,
    ParentDir,
    Normal(Vec<u8>),
}

impl Component {
    pub open spec fn view(&self) -> Comp {
        match self {
            Component::RootDir => Comp::Root,
            Component::CurDir => Comp::Cur,
            Component::ParentDir => Comp::Parent,
            Component::Normal(n) => Comp::Normal(n@),
        }
    }
}

/// The views of a sequence of executable components.
pub open spec fn comps_view(cs: Seq<Component>) -> Seq<Comp> {
    Seq::new(cs.len(), |i: int| cs[i].view())
}

pub open spec fn slash() -> u8 {
    0x2f
}

pub open spec fn dot() -> u8 {
    0x2e
}

/// `p` cut at every `/`: always at least one (possibly empty) segment.
pub open spec fn segments(p: Seq<u8>) -> Seq<Seq<u8>>
    decreases p.len(),
{
    if p.len() == 0 {
        seq![Seq::<u8>::empty()]
    } else {
        let r = segments(p.drop_last());
        if p.last() == slash() {
            r.push(Seq::<u8>::empty())
        } else {
            r.update(r.len() - 1, r.last().push(p.last()))
        }
    }
}

pub proof fn lemma_segments_nonempty(p: Seq<u8>)
    ensures
        segments(p).len() >= 1,
    decreases p.len(),
{
    if p.len() > 0 {
        lemma_segments_nonempty(p.drop_last());
    }
}

/// The segment `..`.
pub open spec fn dotdot() -> Seq<u8> {
    seq![dot(), dot()]
}

/// What the segments after the first contribute, left to right: empty and
/// `.` segments vanish, `..` is a parent step, anything else is a name.
pub open spec fn seg_comps(segs: Seq<Seq<u8>>) -> Seq<Comp>
    decreases segs.len(),
{
    if segs.len() == 0 {
        Seq::empty()
    } else {
        let r = seg_comps(segs.drop_last());
        let s = segs.last();
        if s.len() == 0 || s == seq![dot()] {
            r
        } else if s == dotdot() {
            r.push(Comp::Parent)
        } else {
            r.push(Comp::Normal(s))
        }
    }
}

/// Whether `p` is absolute: it starts at the root.
pub open spec fn is_absolute(p: Seq<u8>) -> bool {
    p.len() > 0 && p[0] == slash()
}

/// The components of `p`, as `Path::components` reads them on Unix.
pub open spec fn components(p: Seq<u8>) -> Seq<Comp> {
    let segs = segments(p);
    if is_absolute(p) {
        seq![Comp::Root] + seg_comps(segs)
    } else if segs[0] == seq![dot()] {
        seq![Comp::Cur] + seg_comps(segs.drop_first())
    } else {
        seg_comps(segs)
    }
}

/// The bytes `PathBuf::push` leaves after pushing `c` onto `buf`.
pub open spec fn push_comp(buf: Seq<u8>, c: Comp) -> Seq<u8> {
    match c {
        Comp::Root => seq![slash()],
        Comp::Cur => join(buf, seq![dot()]),
        Comp::Parent => join(buf, dotdot()),
        Comp::Normal(n) => join(buf, n),
    }
}

/// `PathBuf::push` on Unix: an absolute `name` replaces `buf`; otherwise a
/// separator goes between them unless `buf` is empty or already ends in one.
pub open spec fn join(buf: Seq<u8>, name: Seq<u8>) -> Seq<u8> {
    if is_absolute(name) {
        name
    } else if buf.len() > 0 && buf.last() != slash() {
        buf.push(slash()) + name
    } else {
        buf + name
    }
}

/// The path a sequence of components collects into.
pub open spec fn render(cs: Seq<Comp>) -> Seq<u8>
    decreases cs.len(),
{
    if cs.len() == 0 {
        Seq::empty()
    } else {
        push_comp(render(cs.drop_last()), cs.last())
    }
}

/// `Path::file_name`: the last component when it is a name.
pub open spec fn file_name(p: Seq<u8>) -> Option<Seq<u8>> {
    let cs = components(p);
    if cs.len() > 0 && cs.last() is Normal {
        Some(cs.last()->Normal_0)
    } else {
        None
    }
}

/// `Path::parent`, as components: every component but the last, when the
/// last is a name, `.` or `..`; `None` for the root and the empty path.
pub open spec fn parent_comps(p: Seq<u8>) -> Option<Seq<Comp>> {
    let cs = components(p);
    if cs.len() > 0 && !(cs.last() is Root) {
        Some(cs.drop_last())
    } else {
        None
    }
}

/// One step of the lexical normalisation: `.` vanishes, `..` cancels a name
/// in front of it and is swallowed by the root, anything else is kept.
pub open spec fn lexical_step(stack: Seq<Comp>, c: Comp) -> Seq<Comp> {
    match c {
        Comp::Cur => stack,
        Comp::Parent => if stack.len() > 0 && stack.last() is Normal {
            stack.drop_last()
        } else if stack.len() > 0 && stack.last() is Root {
            stack
        } else {
            stack.push(c)
        },
        _ => stack.push(c),
    }
}

/// The lexical normalisation of a component sequence.
pub open spec fn lexical_comps(cs: Seq<Comp>) -> Seq<Comp>
    decreases cs.len(),
{
    if cs.len() == 0 {
        Seq::empty()
    } else {
        lexical_step(lexical_comps(cs.drop_last()), cs.last())
    }
}

/// `p` with every `.` dropped and every `..` cancelled against the name in
/// front of it, touching no filesystem; `.` when nothing is left.
pub open spec fn lexical_spec(p: Seq<u8>) -> Seq<u8> {
    let out = render(lexical_comps(components(p)));
    if out.len() == 0 { seq![dot()] } else { out }
}

/// Whether a normalised stack holds no `.`, has the root only first, and
/// has every `..` in front of every name.
pub open spec fn is_normal_stack(cs: Seq<Comp>) -> bool {
    &&& forall|i: int| 0 <= i < cs.len() ==> !(#[trigger] cs[i] is Cur)
    &&& forall|i: int| 0 < i < cs.len() ==> !(#[trigger] cs[i] is Root)
    &&& forall|i: int, j: int| 0 <= i < j < cs.len() && #[trigger] cs[j] is Parent ==> !(#[trigger] cs[i] is Normal)
}

/// **Law: lexical normalisation leaves no `.`, keeps the root only in front,
/// and leaves every surviving `..` ahead of every name** — the shape that
/// makes ascending from a relative path grow a `../` prefix and ascending
/// from an absolute one stop at `/`.
pub proof fn law_lexical_is_normal(p: Seq<u8>)
    ensures
        is_normal_stack(lexical_comps(components(p))),
{
    lemma_components_root_front(p);
    lemma_lexical_normal(components(p));
}

/// A path's root, when it has one, is its first component.
pub proof fn lemma_components_root_front(p: Seq<u8>)
    ensures
        forall|i: int| 0 < i < components(p).len() ==> !(#[trigger] components(p)[i] is Root),
{
    lemma_segments_nonempty(p);
    let segs = segments(p);
    lemma_seg_comps_shape(segs);
    lemma_seg_comps_shape(segs.drop_first());
}

/// The segments contribute only names and parent steps.
pub proof fn lemma_seg_comps_shape(segs: Seq<Seq<u8>>)
    ensures
        forall|i: int| 0 <= i < seg_comps(segs).len() ==> (#[trigger] seg_comps(segs)[i] is Parent || seg_comps(segs)[i] is Normal),
    decreases segs.len(),
{
    if segs.len() > 0 {
        lemma_seg_comps_shape(segs.drop_last());
    }
}

proof fn lemma_lexical_normal(cs: Seq<Comp>)
    requires
        forall|i: int| 0 < i < cs.len() ==> !(#[trigger] cs[i] is Root),
    ensures
        is_normal_stack(lexical_comps(cs)),
        cs.len() > 0 && cs[0] is Root ==> lexical_comps(cs).len() > 0 && lexical_comps(cs)[0] is Root,
        !(cs.len() > 0 && cs[0] is Root) ==> forall|i: int| 0 <= i < lexical_comps(cs).len() ==> !(#[trigger] lexical_comps(cs)[i] is Root),
    decreases cs.len(),
{
    if cs.len() > 0 {
        assert forall|i: int| 0 < i < cs.drop_last().len() implies !(#[trigger] cs.drop_last()[i] is Root) by {
            assert(cs.drop_last()[i] == cs[i]);
        }
        lemma_lexical_normal(cs.drop_last());
        let s = lexical_comps(cs.drop_last());
        let t = lexical_comps(cs);
        let c = cs.last();
        assert(t == lexical_step(s, c));
        match c {
            Comp::Cur => {},
            Comp::Parent => {
                if s.len() > 0 && s.last() is Normal {
                    assert forall|i: int, j: int| 0 <= i < j < t.len() && #[trigger] t[j] is Parent implies !(#[trigger] t[i] is Normal) by {
                        assert(t[j] == s[j]);
                        assert(t[i] == s[i]);
                    }
                } else if s.len() > 0 && s.last() is Root {
                } else {
                    assert forall|i: int, j: int| 0 <= i < j < t.len() && #[trigger] t[j] is Parent implies !(#[trigger] t[i] is Normal) by {
                        if j == t.len() - 1 {
                            // every earlier component is a `..` or the root
                            if t[i] is Normal {
                                let k = s.len() - 1;
                                assert(s[k] is Parent);
                                if i < k {
                                    assert(s[k] is Parent);
                                }
                            }
                        } else {
                            assert(t[j] == s[j]);
                            assert(t[i] == s[i]);
                        }
                    }
                }
            },
            Comp::Root => {
                assert(cs.len() == 1);
            },
            Comp::Normal(_) => {},
        }
    }
}

/// `p` cut at every `/`.
pub fn split_segments(p: &[u8]) -> (r: Vec<Vec<u8>>)
    ensures
        r@.len() == segments(p@).len(),
        forall|i: int| 0 <= i < r@.len() ==> #[trigger] r@[i]@ == segments(p@)[i],
{
    let mut done: Vec<Vec<u8>> = Vec::new();
    let mut cur: Vec<u8> = Vec::new();
    let mut i: usize = 0;
    assert(p@.take(0) =~= Seq::<u8>::empty());
    while i < p.len()
        invariant
            i <= p.len(),
            segments(p@.take(i as int)).len() == done@.len() + 1,
            forall|k: int| 0 <= k < done@.len() ==> #[trigger] done@[k]@ == segments(p@.take(i as int))[k],
            cur@ == segments(p@.take(i as int)).last(),
        decreases p.len() - i,
    {
        let ghost prev = p@.take(i as int);
        assert(p@.take(i + 1).drop_last() == prev);
        assert(p@.take(i + 1).last() == p@[i as int]);
        if p[i] == 0x2f {
            done.push(cur);
            cur = Vec::new();
        } else {
            cur.push(p[i]);
        }
        i = i + 1;
    }
    assert(p@.take(p.len() as int) == p@);
    done.push(cur);
    done
}

/// What [`seg_comps`] makes of one segment, if anything.
fn seg_comp(s: &Vec<u8>) -> (c: Option<Component>)
    ensures
        match c {
            None => s@.len() == 0 || s@ == seq![dot()],
            Some(c) => !(s@.len() == 0 || s@ == seq![dot()]) && c.view() == (if s@ == dotdot() {
                Comp::Parent
            } else {
                Comp::Normal(s@)
            }),
        },
{
    if s.len() == 0 {
        None
    } else if s.len() == 1 && s[0] == 0x2e {
        assert(s@ =~= seq![dot()]);
        None
    } else if s.len() == 2 && s[0] == 0x2e && s[1] == 0x2e {
        assert(s@ =~= dotdot());
        Some(Component::ParentDir)
    } else {
        assert(s@ != seq![dot()]) by {
            if s@ == seq![dot()] { assert(s@.len() == 1); }
        }
        assert(s@ != dotdot()) by {
            if s@ == dotdot() { assert(s@.len() == 2); assert(s@[0] == dot()); }
        }
        Some(Component::Normal(s.clone()))
    }
}

/// The components of `p`, as `Path::components` reads them on Unix.
pub fn components_of(p: &[u8]) -> (r: Vec<Component>)
    ensures
        comps_view(r@) == components(p@),
{
    let segs = split_segments(p);
    proof { lemma_segments_nonempty(p@); }
    let ghost gsegs = segments(p@);
    let mut out: Vec<Component> = Vec::new();
    let absolute = p.len() > 0 && p[0] == 0x2f;
    let lead_cur = !absolute && segs[0].len() == 1 && segs[0][0] == 0x2e;
    let first: usize;
    let ghost base: Seq<Seq<u8>>;
    if absolute {
        out.push(Component::RootDir);
        first = 0;
        proof { base = gsegs; }
    } else if lead_cur {
        assert(gsegs[0] =~= seq![dot()]);
        out.push(Component::CurDir);
        first = 1;
        proof { base = gsegs.drop_first(); }
    } else {
        assert(gsegs[0] != seq![dot()]) by {
            if gsegs[0] == seq![dot()] { assert(segs@[0]@.len() == 1); }
        }
        first = 0;
        proof { base = gsegs; }
    }
    let ghost head = comps_view(out@);
    let mut i = first;
    assert(base.take(0) =~= Seq::<Seq<u8>>::empty());
    while i < segs.len()
        invariant
            first <= i <= segs@.len(),
            segs@.len() == gsegs.len(),
            forall|k: int| 0 <= k < segs@.len() ==> #[trigger] segs@[k]@ == gsegs[k],
            base.len() == gsegs.len() - first,
            forall|k: int| 0 <= k < base.len() ==> #[trigger] base[k] == gsegs[k + first],
            comps_view(out@) == head + seg_comps(base.take(i - first)),
        decreases segs@.len() - i,
    {
        let ghost b = base.take(i - first);
        assert(base.take(i + 1 - first).drop_last() == b);
        assert(base.take(i + 1 - first).last() == gsegs[i as int]);
        let ghost before = out@;
        match seg_comp(&segs[i]) {
            Some(c) => {
                out.push(c);
                assert(comps_view(out@) =~= comps_view(before).push(c.view()));
            },
            None => {},
        }
        i = i + 1;
    }
    assert(base.take(segs@.len() - first) == base);
    assert(comps_view(out@) == components(p@)) by {
        if absolute {
            assert(head =~= seq![Comp::Root]);
        } else if lead_cur {
            assert(head =~= seq![Comp::Cur]);
        } else {
            assert(head =~= Seq::<Comp>::empty());
        }
    }
    out
}

/// `PathBuf::push` on Unix, as bytes.
pub fn join_path(buf: &[u8], name: &[u8]) -> (r: Vec<u8>)
    ensures
        r@ == join(buf@, name@),
{
    let mut r: Vec<u8> = Vec::new();
    if name.len() > 0 && name[0] == 0x2f {
        r = slice_bytes(name, 0, name.len());
        assert(r@ =~= name@);
        return r;
    }
    r = slice_bytes(buf, 0, buf.len());
    assert(r@ =~= buf@);
    if buf.len() > 0 && buf[buf.len() - 1] != 0x2f {
        r.push(0x2f);
    }
    let ghost mid = r@;
    let mut i: usize = 0;
    while i < name.len()
        invariant
            i <= name.len(),
            r@ == mid + name@.take(i as int),
        decreases name.len() - i,
    {
        r.push(name[i]);
        assert(name@.take(i + 1) == name@.take(i as int).push(name@[i as int]));
        i = i + 1;
    }
    assert(name@.take(name.len() as int) == name@);
    r
}

/// The bytes pushing one component appends.
fn push_component(buf: Vec<u8>, c: &Component) -> (r: Vec<u8>)
    ensures
        r@ == push_comp(buf@, c.view()),
{
    match c {
        Component::RootDir => {
            let mut r: Vec<u8> = Vec::new();
            r.push(0x2f);
            assert(r@ =~= seq![slash()]);
            r
        },
        Component::CurDir => {
            let mut d: Vec<u8> = Vec::new();
            d.push(0x2e);
            assert(d@ =~= seq![dot()]);
            join_path(buf.as_slice(), d.as_slice())
        },
        Component::ParentDir => {
            let mut d: Vec<u8> = Vec::new();
            d.push(0x2e);
            d.push(0x2e);
            assert(d@ =~= dotdot());
            join_path(buf.as_slice(), d.as_slice())
        },
        Component::Normal(n) => join_path(buf.as_slice(), n.as_slice()),
    }
}

/// The path a sequence of components collects into.
pub fn render_path(cs: &[Component]) -> (r: Vec<u8>)
    ensures
        r@ == render(comps_view(cs@)),
{
    let mut r: Vec<u8> = Vec::new();
    let mut i: usize = 0;
    assert(comps_view(cs@).take(0) =~= Seq::<Comp>::empty());
    while i < cs.len()
        invariant
            i <= cs.len(),
            r@ == render(comps_view(cs@).take(i as int)),
        decreases cs.len() - i,
    {
        assert(comps_view(cs@).take(i + 1).drop_last() =~= comps_view(cs@).take(i as int));
        assert(comps_view(cs@).take(i + 1).last() == cs@[i as int].view());
        r = push_component(r, &cs[i]);
        i = i + 1;
    }
    assert(comps_view(cs@).take(cs.len() as int) =~= comps_view(cs@));
    r
}

/// A copy of `c`.
fn copy_component(c: &Component) -> (r: Component)
    ensures
        r.view() == c.view(),
{
    match c {
        Component::RootDir => Component::RootDir,
        Component::CurDir => Component::CurDir,
        Component::ParentDir => Component::ParentDir,
        Component::Normal(n) => Component::Normal(n.clone()),
    }
}

/// Whether two executable components are the same component.
fn component_eq(a: &Component, b: &Component) -> (r: bool)
    ensures
        r == (a.view() == b.view()),
{
    match (a, b) {
        (Component::RootDir, Component::RootDir) => true,
        (Component::CurDir, Component::CurDir) => true,
        (Component::ParentDir, Component::ParentDir) => true,
        (Component::Normal(x), Component::Normal(y)) => bytes_eq(x.as_slice(), y.as_slice()),
        _ => false,
    }
}

/// Whether two component sequences are the same.
pub fn components_eq(a: &[Component], b: &[Component]) -> (r: bool)
    ensures
        r == (comps_view(a@) == comps_view(b@)),
{
    if a.len() != b.len() {
        assert(comps_view(a@).len() != comps_view(b@).len());
        return false;
    }
    let mut i: usize = 0;
    while i < a.len()
        invariant
            a.len() == b.len(),
            i <= a.len(),
            forall|k: int| 0 <= k < i ==> a@[k].view() == b@[k].view(),
        decreases a.len() - i,
    {
        if !component_eq(&a[i], &b[i]) {
            assert(comps_view(a@)[i as int] != comps_view(b@)[i as int]);
            return false;
        }
        i = i + 1;
    }
    assert(comps_view(a@) =~= comps_view(b@));
    true
}

/// Whether `a` and `b` name the same path, component for component.
pub fn same_path(a: &[u8], b: &[u8]) -> (r: bool)
    ensures
        r == (components(a@) == components(b@)),
{
    let x = components_of(a);
    let y = components_of(b);
    components_eq(x.as_slice(), y.as_slice())
}

/// `Path::file_name`: the last component of `p` when it is a name.
pub fn file_name_of(p: &[u8]) -> (r: Option<Vec<u8>>)
    ensures
        match r {
            Some(n) => file_name(p@) == Some(n@),
            None => file_name(p@) is None,
        },
{
    let cs = components_of(p);
    if cs.len() == 0 {
        return None;
    }
    assert(comps_view(cs@).last() == cs@[cs.len() - 1].view());
    match &cs[cs.len() - 1] {
        Component::Normal(n) => Some(n.clone()),
        _ => None,
    }
}

/// Whether `p`'s parent is `dir`, as `p.parent() == Some(dir)` asks it.
pub fn parent_is(p: &[u8], dir: &[u8]) -> (r: bool)
    ensures
        r == (parent_comps(p@) == Some(components(dir@))),
{
    let cs = components_of(p);
    if cs.len() == 0 {
        return false;
    }
    assert(comps_view(cs@).last() == cs@[cs.len() - 1].view());
    if let Component::RootDir = &cs[cs.len() - 1] {
        return false;
    }
    let mut head = cs;
    head.pop();
    assert(comps_view(head@) =~= components(p@).drop_last());
    let d = components_of(dir);
    components_eq(head.as_slice(), d.as_slice())
}

/// `Path::parent`, spelled as the components collect: `None` for the root
/// and for the empty path.
pub fn parent_of(p: &[u8]) -> (r: Option<Vec<u8>>)
    ensures
        match r {
            Some(q) => parent_comps(p@) matches Some(cs) && q@ == render(cs),
            None => parent_comps(p@) is None,
        },
{
    let cs = components_of(p);
    if cs.len() == 0 {
        return None;
    }
    assert(comps_view(cs@).last() == cs@[cs.len() - 1].view());
    if let Component::RootDir = &cs[cs.len() - 1] {
        return None;
    }
    let mut head = cs;
    head.pop();
    assert(comps_view(head@) =~= components(p@).drop_last());
    Some(render_path(head.as_slice()))
}

/// The lexical normalisation of `p`: every `.` dropped, every `..`
/// cancelled against the name in front of it, `/..` kept at `/`, and `.`
/// when nothing is left.
pub fn lexical(p: &[u8]) -> (r: Vec<u8>)
    ensures
        r@ == lexical_spec(p@),
{
    let cs = components_of(p);
    let mut stack: Vec<Component> = Vec::new();
    let mut i: usize = 0;
    assert(comps_view(cs@).take(0) =~= Seq::<Comp>::empty());
    while i < cs.len()
        invariant
            i <= cs.len(),
            comps_view(stack@) == lexical_comps(comps_view(cs@).take(i as int)),
        decreases cs.len() - i,
    {
        assert(comps_view(cs@).take(i + 1).drop_last() =~= comps_view(cs@).take(i as int));
        assert(comps_view(cs@).take(i + 1).last() == cs@[i as int].view());
        let ghost before = stack@;
        match &cs[i] {
            Component::CurDir => {},
            Component::ParentDir => {
                let n = stack.len();
                if n > 0 && (stack[n - 1] matches Component::Normal(_)) {
                    stack.pop();
                    assert(comps_view(stack@) =~= comps_view(before).drop_last());
                } else if n > 0 && (stack[n - 1] matches Component::RootDir) {
                } else {
                    stack.push(Component::ParentDir);
                    assert(comps_view(stack@) =~= comps_view(before).push(Comp::Parent));
                }
            },
            other => {
                stack.push(copy_component(other));
                assert(comps_view(stack@) =~= comps_view(before).push(cs@[i as int].view()));
            },
        }
        i = i + 1;
    }
    assert(comps_view(cs@).take(cs.len() as int) =~= comps_view(cs@));
    let out = render_path(stack.as_slice());
    if out.len() == 0 {
        let mut d: Vec<u8> = Vec::new();
        d.push(0x2e);
        assert(d@ =~= seq![dot()]);
        d
    } else {
        out
    }
}

/// The directory a listing of `dir` ascends to: `dir` normalised with `..`
/// appended and normalised again, or `None` when that is `dir` itself — the
/// root, and nothing else.
pub open spec fn parent_dir_spec(dir: Seq<u8>) -> Option<Seq<u8>> {
    let here = lexical_spec(dir);
    let up = lexical_spec(join(here, dotdot()));
    if components(up) != components(here) { Some(up) } else { None }
}

/// The directory a listing of `dir` ascends to, or `None` at the root.
pub fn parent_dir(dir: &[u8]) -> (r: Option<Vec<u8>>)
    ensures
        match r {
            Some(up) => parent_dir_spec(dir@) == Some(up@),
            None => parent_dir_spec(dir@) is None,
        },
{
    let here = lexical(dir);
    let mut dd: Vec<u8> = Vec::new();
    dd.push(0x2e);
    dd.push(0x2e);
    assert(dd@ =~= dotdot());
    let joined = join_path(here.as_slice(), dd.as_slice());
    let up = lexical(joined.as_slice());
    if same_path(up.as_slice(), here.as_slice()) {
        None
    } else {
        Some(up)
    }
}

/// Whether `n` holds no `/` byte.
pub open spec fn no_slash(n: Seq<u8>) -> bool {
    !n.contains(slash())
}

/// Whether `n` reads as exactly one ordinary component: not empty, no `/`,
/// neither `.` nor `..`.
pub open spec fn single_name(n: Seq<u8>) -> bool {
    n.len() > 0 && no_slash(n) && n != seq![dot()] && n != dotdot()
}

/// Appending bytes with no `/` extends the last segment.
pub proof fn lemma_segments_append(a: Seq<u8>, b: Seq<u8>)
    requires
        no_slash(b),
    ensures
        segments(a + b) == segments(a).update(segments(a).len() - 1, segments(a).last() + b),
    decreases b.len(),
{
    lemma_segments_nonempty(a);
    if b.len() == 0 {
        assert(a + b =~= a);
        assert(segments(a).last() + b =~= segments(a).last());
        assert(segments(a).update(segments(a).len() - 1, segments(a).last()) =~= segments(a));
    } else {
        let b2 = b.drop_last();
        assert(!b2.contains(slash())) by {
            if b2.contains(slash()) {
                let k = choose|k: int| 0 <= k < b2.len() && b2[k] == slash();
                assert(b[k] == slash());
            }
        }
        lemma_segments_append(a, b2);
        assert((a + b).drop_last() =~= a + b2);
        assert((a + b).last() == b.last());
        assert(b.last() != slash()) by {
            if b.last() == slash() { assert(b.contains(slash())); }
        }
        lemma_segments_nonempty(a + b2);
        let s = segments(a);
        let r = segments(a + b2);
        assert(r.last() == s.last() + b2);
        assert(segments(a + b) == r.update(r.len() - 1, r.last().push(b.last())));
        assert((s.last() + b2).push(b.last()) =~= s.last() + b);
        assert(r.update(r.len() - 1, r.last().push(b.last())) =~= s.update(s.len() - 1, s.last() + b));
    }
}

/// A segment list ending in an empty segment contributes what it does
/// without it.
proof fn lemma_seg_comps_push_empty(segs: Seq<Seq<u8>>)
    ensures
        seg_comps(segs.push(Seq::<u8>::empty())) == seg_comps(segs),
{
    assert(segs.push(Seq::<u8>::empty()).drop_last() =~= segs);
}

/// A good name at the end contributes one ordinary component.
proof fn lemma_seg_comps_push_name(segs: Seq<Seq<u8>>, n: Seq<u8>)
    requires
        single_name(n),
    ensures
        seg_comps(segs.push(n)) == seg_comps(segs).push(Comp::Normal(n)),
{
    assert(segs.push(n).drop_last() =~= segs);
}

/// The components of `join(dir, n)` for a single name `n`: those of `dir`,
/// and then `n`.
pub proof fn lemma_join_single(dir: Seq<u8>, n: Seq<u8>)
    requires
        single_name(n),
    ensures
        components(join(dir, n)) == components(dir).push(Comp::Normal(n)),
{
    lemma_segments_nonempty(dir);
    let e = Seq::<u8>::empty();
    assert(!is_absolute(n)) by {
        if is_absolute(n) { assert(n.contains(slash())); }
    }
    let j = join(dir, n);
    if dir.len() == 0 {
        assert(j == e + n);
        lemma_segments_append(e, n);
        assert(segments(e) == seq![e]);
        assert(segments(n) =~= seq![n]) by {
            assert(e + n =~= n);
            assert(seq![e].update(0, e + n) =~= seq![n]);
        }
        lemma_components_empty();
        assert(dir =~= e);
        lemma_seg_comps_push_name(Seq::<Seq<u8>>::empty(), n);
        assert(seq![n] =~= Seq::<Seq<u8>>::empty().push(n));
        assert(seg_comps(Seq::<Seq<u8>>::empty()) =~= Seq::<Comp>::empty());
        assert(n != seq![dot()]);
        assert(components(j) =~= seq![Comp::Normal(n)]);
    } else if dir.last() != slash() {
        let d2 = dir.push(slash());
        assert(j == d2 + n);
        assert(d2.drop_last() =~= dir);
        assert(segments(d2) == segments(dir).push(e));
        lemma_segments_append(d2, n);
        assert(segments(j) =~= segments(dir).push(n)) by {
            assert(e + n =~= n);
        }
        let sd = segments(dir);
        lemma_seg_comps_push_name(sd, n);
        assert(j[0] == dir[0]);
        assert(segments(j)[0] == sd[0]);
        if !is_absolute(dir) && sd[0] == seq![dot()] {
            assert(segments(j).drop_first() =~= sd.drop_first().push(n));
            lemma_seg_comps_push_name(sd.drop_first(), n);
            assert(components(j) =~= seq![Comp::Cur] + seg_comps(sd.drop_first()).push(Comp::Normal(n)));
        }
        assert(components(j) =~= components(dir).push(Comp::Normal(n)));
    } else {
        let d0 = dir.drop_last();
        assert(dir =~= d0.push(slash()));
        assert(segments(dir) == segments(d0).push(e));
        assert(j == dir + n);
        lemma_segments_append(dir, n);
        let s0 = segments(d0);
        lemma_segments_nonempty(d0);
        assert(segments(j) =~= s0.push(n)) by {
            assert(e + n =~= n);
        }
        lemma_seg_comps_push_name(s0, n);
        lemma_seg_comps_push_empty(s0);
        assert(j[0] == dir[0]);
        assert(segments(j)[0] == segments(dir)[0]);
        if !is_absolute(dir) && segments(dir)[0] == seq![dot()] {
            assert(segments(j).drop_first() =~= s0.drop_first().push(n));
            assert(segments(dir).drop_first() =~= s0.drop_first().push(e));
            lemma_seg_comps_push_name(s0.drop_first(), n);
            lemma_seg_comps_push_empty(s0.drop_first());
            assert(components(j) =~= components(dir).push(Comp::Normal(n)));
        }
        assert(components(j) =~= components(dir).push(Comp::Normal(n)));
    }
}

/// The empty path has no components.
pub proof fn lemma_components_empty()
    ensures
        components(Seq::<u8>::empty()) == Seq::<Comp>::empty(),
{
    let e = Seq::<u8>::empty();
    assert(segments(e) == seq![e]);
    assert(seq![e] =~= Seq::<Seq<u8>>::empty().push(e));
    lemma_seg_comps_push_empty(Seq::<Seq<u8>>::empty());
    assert(seg_comps(Seq::<Seq<u8>>::empty()) =~= Seq::<Comp>::empty());
    assert(e != seq![dot()]) by {
        if e == seq![dot()] { assert(e.len() == 1); }
    }
    assert(components(e) =~= Seq::<Comp>::empty());
}

/// Every segment of a path is free of `/`.
proof fn lemma_segments_no_slash(p: Seq<u8>)
    ensures
        forall|i: int| 0 <= i < segments(p).len() ==> no_slash(#[trigger] segments(p)[i]),
    decreases p.len(),
{
    if p.len() > 0 {
        lemma_segments_no_slash(p.drop_last());
        lemma_segments_nonempty(p.drop_last());
        let r = segments(p.drop_last());
        if p.last() != slash() {
            assert forall|i: int| 0 <= i < segments(p).len() implies no_slash(#[trigger] segments(p)[i]) by {
                if i == r.len() - 1 {
                    let x = r.last().push(p.last());
                    assert(segments(p)[i] == x);
                    if x.contains(slash()) {
                        let k = choose|k: int| 0 <= k < x.len() && x[k] == slash();
                        if k < r.last().len() {
                            assert(r.last()[k] == slash());
                            assert(r.last().contains(slash()));
                        }
                    }
                } else {
                    assert(segments(p)[i] == r[i]);
                }
            }
        } else {
            assert forall|i: int| 0 <= i < segments(p).len() implies no_slash(#[trigger] segments(p)[i]) by {
                if i < r.len() {
                    assert(segments(p)[i] == r[i]);
                } else {
                    assert(segments(p)[i] =~= Seq::<u8>::empty());
                }
            }
        }
    }
}

/// Every ordinary component the segments contribute is a single name.
proof fn lemma_seg_comps_names(segs: Seq<Seq<u8>>)
    requires
        forall|i: int| 0 <= i < segs.len() ==> no_slash(#[trigger] segs[i]),
    ensures
        forall|i: int| 0 <= i < seg_comps(segs).len() && #[trigger] seg_comps(segs)[i] is Normal
            ==> single_name(seg_comps(segs)[i]->Normal_0),
    decreases segs.len(),
{
    if segs.len() > 0 {
        assert forall|i: int| 0 <= i < segs.drop_last().len() implies no_slash(#[trigger] segs.drop_last()[i]) by {
            assert(segs.drop_last()[i] == segs[i]);
        }
        lemma_seg_comps_names(segs.drop_last());
        assert(no_slash(segs[segs.len() - 1]));
    }
}

/// A path that reads as exactly the one name it spells is a single name.
pub proof fn lemma_components_single(n: Seq<u8>)
    requires
        components(n) == seq![Comp::Normal(n)],
    ensures
        single_name(n),
{
    lemma_segments_nonempty(n);
    lemma_segments_no_slash(n);
    let segs = segments(n);
    if is_absolute(n) {
        assert(components(n)[0] == Comp::Root);
    } else if segs[0] == seq![dot()] {
        assert(components(n)[0] == Comp::Cur);
    } else {
        lemma_seg_comps_names(segs);
        assert(components(n)[0] is Normal);
        assert(seg_comps(segs)[0] is Normal);
    }
}

} // verus!
