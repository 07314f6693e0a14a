//! Following a link and going back, as steps between the filesystem and
//! process work they wait on.
//!
//! A follow or a going-back is a short run of outside errands — locate a
//! path on disk, read a file as text, hand a URL to the opener — with a
//! decision after each. The decisions, and every change to the history, are
//! made here: a step is handed what its errand found and says what comes
//! next. The history changes at one point of a follow only, once the target
//! has loaded; a going-back that fails puts its entry back.

use vstd::prelude::*;
use crate::link::{
    classify_spec, located_spec, pushed, resolve_spec, validated_url_spec, EntryView,
    FileFacts, LinkError, LinkErrorView, LinkTarget, Navigator, StackedDocument, TargetView,
    MAX_LINK_FILE_BYTES, MAX_STACK_DEPTH,
};
use crate::loader::{base_dir_spec, DocumentSource, SourceView};
use crate::path::{join, join_path};

verus! {

// ------------------------------------------------------------ following

/// A local target waiting to be canonicalised and looked at on disk.
#[derive(Debug)]
pub struct Locating {
    joined: Vec<u8>,
    doc: bool,
    current: DocumentSource,
    scroll: usize,
}

/// A [`Locating`], as values: the target, and where the reader was.
pub ghost struct LocatingView {
    pub target: TargetView,
    pub current: SourceView,
    pub scroll: usize,
}

impl View for Locating {
    type V = LocatingView;

    closed spec fn view(&self) -> LocatingView {
        LocatingView {
            target: if self.doc { TargetView::LocalDoc(self.joined@) } else { TargetView::LocalFile(self.joined@) },
            current: self.current@,
            scroll: self.scroll,
        }
    }
}

/// An admitted path waiting to be read as document text.
#[derive(Debug)]
pub struct Reading {
    path: Vec<u8>,
    current: DocumentSource,
    scroll: usize,
}

/// A [`Reading`], as values.
pub ghost struct ReadingView {
    pub path: Seq<u8>,
    pub current: SourceView,
    pub scroll: usize,
}

impl View for Reading {
    type V = ReadingView;

    closed spec fn view(&self) -> ReadingView {
        ReadingView { path: self.path@, current: self.current@, scroll: self.scroll }
    }
}

/// A URL that passed the barricade, waiting for the opener.
#[derive(Debug)]
pub struct Handing {
    url: String,
}

impl View for Handing {
    type V = Seq<char>;

    closed spec fn view(&self) -> Seq<char> {
        self.url@
    }
}

/// Where a follow stands: an errand to run, or how it ended.
#[derive(Debug)]
pub enum FollowStep {
    /// Canonicalise and stat [`Locating::path`], then report what was found to
    /// [`Locating::found`].
    Locate(Locating),
    /// Give [`Handing::url`] to the opener, then report to [`Handing::handed`].
    Open(Handing),
    /// Read [`Reading::path`] as document text under [`Reading::limit`], then
    /// report to [`Reading::read`].
    Read(Reading),
    /// The URL went to the opener; the history is as it was.
    Handed,
    /// The target loaded from `path` with `text`, and where the reader was
    /// has been pushed.
    Opened { path: Vec<u8>, text: String },
    /// Refused; the history is as it was.
    Failed(LinkError),
}

/// A [`FollowStep`], as values.
pub ghost enum FollowStepView {
    Locate(LocatingView),
    Open(Seq<char>),
    Read(ReadingView),
    Handed,
    Opened { path: Seq<u8>, text: Seq<char> },
    Failed(LinkErrorView),
}

impl View for FollowStep {
    type V = FollowStepView;

    open spec fn view(&self) -> FollowStepView {
        match self {
            FollowStep::Locate(l) => FollowStepView::Locate(l@),
            FollowStep::Open(h) => FollowStepView::Open(h@),
            FollowStep::Read(r) => FollowStepView::Read(r@),
            FollowStep::Handed => FollowStepView::Handed,
            FollowStep::Opened { path, text } => FollowStepView::Opened { path: path@, text: text@ },
            FollowStep::Failed(e) => FollowStepView::Failed(e@),
        }
    }
}

/// The first step of following `href`, written in `current` at `scroll`:
/// refused as it classifies or resolves; a URL goes to the opener only once
/// it has passed the barricade; a local target goes to be located.
pub open spec fn follow_spec(href: Seq<char>, current: SourceView, scroll: usize) -> FollowStepView {
    match classify_spec(href) {
        Err(e) => FollowStepView::Failed(e),
        Ok(t) => match resolve_spec(t, base_dir_spec(current)) {
            Err(e) => FollowStepView::Failed(e),
            Ok(TargetView::Url(u)) => match validated_url_spec(u) {
                Ok(s) => FollowStepView::Open(s),
                Err(e) => FollowStepView::Failed(e),
            },
            Ok(r) => FollowStepView::Locate(LocatingView { target: r, current, scroll }),
        },
    }
}

/// The path a local target names.
pub open spec fn local_path(t: TargetView) -> Seq<u8> {
    match t {
        TargetView::LocalDoc(p) => p,
        TargetView::LocalFile(p) => p,
        TargetView::Url(_) => Seq::empty(),
    }
}

/// What follows the look-up of a local target: refused as it is missing,
/// not a regular file or past the link ceiling; refused when the history
/// has no room; otherwise its canonical path is read.
pub open spec fn found_spec(history: Seq<EntryView>, l: LocatingView, canonical: Option<Seq<u8>>, facts: FileFacts) -> FollowStepView {
    match located_spec(l.target, canonical, facts, MAX_LINK_FILE_BYTES) {
        Err(e) => FollowStepView::Failed(e),
        Ok(t) => if history.len() >= MAX_STACK_DEPTH {
            FollowStepView::Failed(LinkErrorView::StackTooDeep { limit: MAX_STACK_DEPTH })
        } else {
            FollowStepView::Read(ReadingView { path: local_path(t), current: l.current, scroll: l.scroll })
        },
    }
}

impl Navigator {
    /// Follows `href`, written in the document `current` at `scroll`: the
    /// first step. Nothing is pushed and nothing opened here.
    pub fn follow(&self, href: &str, current: DocumentSource, scroll: usize) -> (r: FollowStep)
        ensures
            r@ == follow_spec(href@, current@, scroll),
    {
        match self.target(href, &current) {
            Err(e) => FollowStep::Failed(e),
            Ok(LinkTarget::Url(u)) => match self.hand_off(u.as_str()) {
                Ok(s) => FollowStep::Open(Handing { url: s }),
                Err(e) => FollowStep::Failed(e),
            },
            Ok(LinkTarget::LocalDoc(p)) => FollowStep::Locate(Locating { joined: p, doc: true, current, scroll }),
            Ok(LinkTarget::LocalFile(p)) => FollowStep::Locate(Locating { joined: p, doc: false, current, scroll }),
        }
    }
}

impl Locating {
    /// The joined path to canonicalise and stat.
    pub fn path(&self) -> (p: &[u8])
        ensures
            p@ == local_path(self@.target),
    {
        self.joined.as_slice()
    }

    /// What the look-up found: the canonical path (`None` where it did not
    /// canonicalize) and what that path is, or why the path could not be
    /// looked at. The history is untouched.
    pub fn found(self, nav: &Navigator, looked: Result<(Option<Vec<u8>>, FileFacts), LinkError>) -> (r: FollowStep)
        ensures
            match looked {
                Err(e) => r@ == FollowStepView::Failed(e@),
                Ok((canonical, facts)) => r@ == found_spec(nav.history(), self@, match canonical {
                    Some(c) => Some(c@),
                    None => None,
                }, facts),
            },
    {
        let (canonical, facts) = match looked {
            Err(e) => return FollowStep::Failed(e),
            Ok(found) => found,
        };
        let target = if self.doc { LinkTarget::LocalDoc(self.joined) } else { LinkTarget::LocalFile(self.joined) };
        match target.locate(canonical, facts, MAX_LINK_FILE_BYTES) {
            Err(e) => FollowStep::Failed(e),
            Ok(t) => {
                let path = match t {
                    LinkTarget::LocalDoc(p) => p,
                    LinkTarget::LocalFile(p) => p,
                    LinkTarget::Url(_) => Vec::new(),
                };
                match nav.room() {
                    Err(e) => FollowStep::Failed(e),
                    Ok(()) => FollowStep::Read(Reading { path, current: self.current, scroll: self.scroll }),
                }
            },
        }
    }
}

impl Handing {
    /// The URL the opener is to be given.
    pub fn url(&self) -> (u: &str)
        ensures
            u@ == self@,
    {
        self.url.as_str()
    }

    /// What the opener answered.
    pub fn handed(self, outcome: Result<(), LinkError>) -> (r: FollowStep)
        ensures
            match outcome {
                Ok(()) => r@ == FollowStepView::Handed,
                Err(e) => r@ == FollowStepView::Failed(e@),
            },
    {
        match outcome {
            Ok(()) => FollowStep::Handed,
            Err(e) => FollowStep::Failed(e),
        }
    }
}

impl Reading {
    /// The canonical path to read.
    pub fn path(&self) -> (p: &[u8])
        ensures
            p@ == self@.path,
    {
        self.path.as_slice()
    }

    /// The ceiling the read is bounded by.
    pub fn limit(&self) -> (l: u64)
        ensures
            l == MAX_LINK_FILE_BYTES,
    {
        MAX_LINK_FILE_BYTES
    }

    /// What the read gave: the document text, or why it was refused. Only
    /// here does a follow touch the history, and only once the text is in:
    /// where the reader was is pushed.
    pub fn read(self, nav: &mut Navigator, text: Result<String, LinkError>) -> (r: FollowStep)
        ensures
            match text {
                Err(e) => r@ == FollowStepView::Failed(e@) && final(nav).history() == old(nav).history(),
                Ok(t) => if old(nav).history().len() < MAX_STACK_DEPTH {
                    &&& r@ == (FollowStepView::Opened { path: self@.path, text: t@ })
                    &&& final(nav).history() == pushed(old(nav).history(), self@.current, self@.scroll)
                } else {
                    &&& r@ == FollowStepView::Failed(LinkErrorView::StackTooDeep { limit: MAX_STACK_DEPTH })
                    &&& final(nav).history() == old(nav).history()
                },
            },
    {
        match text {
            Err(e) => FollowStep::Failed(e),
            Ok(t) => match nav.arrived(self.current, self.scroll) {
                Ok(()) => FollowStep::Opened { path: self.path, text: t },
                Err(e) => FollowStep::Failed(e),
            },
        }
    }
}

// ------------------------------------------------------------ going back

/// A document going back returns to, waiting for its path to be located.
#[derive(Debug)]
pub struct Returning {
    entry: StackedDocument,
    joined: Vec<u8>,
}

/// A [`Returning`], as values: the entry taken off the history, and its
/// path joined onto the working directory.
pub ghost struct ReturningView {
    pub entry: EntryView,
    pub joined: Seq<u8>,
}

impl View for Returning {
    type V = ReturningView;

    closed spec fn view(&self) -> ReturningView {
        ReturningView { entry: self.entry@, joined: self.joined@ }
    }
}

/// A document going back returns to, located and admitted, waiting to be
/// read again.
#[derive(Debug)]
pub struct Rereading {
    entry: StackedDocument,
    path: Vec<u8>,
}

/// A [`Rereading`], as values.
pub ghost struct RereadingView {
    pub entry: EntryView,
    pub path: Seq<u8>,
}

impl View for Rereading {
    type V = RereadingView;

    closed spec fn view(&self) -> RereadingView {
        RereadingView { entry: self.entry@, path: self.path@ }
    }
}

/// Where a going-back stands: an errand to run, or how it ended.
#[derive(Debug)]
pub enum BackStep {
    /// Canonicalise and stat [`Returning::path`], then report to [`Returning::found`].
    Locate(Returning),
    /// Read [`Rereading::path`] as document text under [`Rereading::limit`],
    /// then report to [`Rereading::read`].
    Read(Rereading),
    /// The document one level up, read again with `text`, to be shown at
    /// `scroll`; its entry has left the history.
    Reopened { source: DocumentSource, scroll: usize, text: String },
    /// Refused; the history is as it was before going back.
    Failed(LinkError),
}

/// A [`BackStep`], as values.
pub ghost enum BackStepView {
    Locate(ReturningView),
    Read(RereadingView),
    Reopened { source: SourceView, scroll: usize, text: Seq<char> },
    Failed(LinkErrorView),
}

impl View for BackStep {
    type V = BackStepView;

    open spec fn view(&self) -> BackStepView {
        match self {
            BackStep::Locate(r) => BackStepView::Locate(r@),
            BackStep::Read(r) => BackStepView::Read(r@),
            BackStep::Reopened { source, scroll, text } => BackStepView::Reopened {
                source: source@,
                scroll: *scroll,
                text: text@,
            },
            BackStep::Failed(e) => BackStepView::Failed(e@),
        }
    }
}

/// The first step of going back: refused at the root document, and for a
/// document that arrived on stdin, which was read once to end; otherwise the
/// top entry's path, joined onto the working directory, goes to be located.
pub open spec fn back_spec(history: Seq<EntryView>) -> BackStepView {
    if history.len() == 0 {
        BackStepView::Failed(LinkErrorView::AtRoot)
    } else {
        match history.last().source {
            SourceView::Stdin => BackStepView::Failed(LinkErrorView::StreamNotRereadable),
            SourceView::Path(p) => BackStepView::Locate(ReturningView {
                entry: history.last(),
                joined: join(seq![0x2eu8], p),
            }),
        }
    }
}

/// The history the first step of going back leaves: one shorter while its
/// entry is on its way back, as it was where going back was refused.
pub open spec fn back_history(history: Seq<EntryView>) -> Seq<EntryView> {
    if back_spec(history) is Locate {
        history.drop_last()
    } else {
        history
    }
}

/// The history once a failed going-back has put `entry` back, where there
/// is room for it.
pub open spec fn put_back_spec(history: Seq<EntryView>, entry: EntryView) -> Seq<EntryView> {
    if history.len() < MAX_STACK_DEPTH {
        history.push(entry)
    } else {
        history
    }
}

fn put_back(nav: &mut Navigator, entry: StackedDocument)
    ensures
        final(nav).history() == put_back_spec(old(nav).history(), entry@),
{
    if nav.depth() < MAX_STACK_DEPTH {
        nav.restore(entry);
    }
}

impl Navigator {
    /// Goes back: the first step. The top entry leaves the history while it
    /// is on its way back; where going back is refused, nothing changes.
    pub fn back(&mut self) -> (r: BackStep)
        ensures
            r@ == back_spec(old(self).history()),
            final(self).history() == back_history(old(self).history()),
    {
        let depth = self.depth();
        match self.leave() {
            Err(e) => BackStep::Failed(e),
            Ok(entry) => match Navigator::rereadable(entry.source()) {
                Err(e) => {
                    assert(depth > 0);
                    self.restore(entry);
                    assert(self.history() =~= old(self).history());
                    BackStep::Failed(e)
                },
                Ok(()) => {
                    let mut dot: Vec<u8> = Vec::new();
                    dot.push(0x2e);
                    assert(dot@ =~= seq![0x2eu8]);
                    let joined = match entry.source() {
                        DocumentSource::Path(p) => join_path(dot.as_slice(), p.as_slice()),
                        DocumentSource::Stdin => dot,
                    };
                    BackStep::Locate(Returning { entry, joined })
                },
            },
        }
    }
}

impl Returning {
    /// The joined path to canonicalise and stat.
    pub fn path(&self) -> (p: &[u8])
        ensures
            p@ == self@.joined,
    {
        self.joined.as_slice()
    }

    /// What the look-up found, judged under the ceiling the document was
    /// first admitted under, or why the path could not be looked at. A
    /// refusal puts the entry back.
    pub fn found(self, nav: &mut Navigator, looked: Result<(Option<Vec<u8>>, FileFacts), LinkError>) -> (r: BackStep)
        ensures
            match looked {
                Err(e) => r@ == BackStepView::Failed(e@)
                    && final(nav).history() == put_back_spec(old(nav).history(), self@.entry),
                Ok((canonical, facts)) => match located_spec(TargetView::LocalDoc(self@.joined), match canonical {
                    Some(c) => Some(c@),
                    None => None,
                }, facts, self@.entry.limit) {
                    Err(e) => r@ == BackStepView::Failed(e)
                        && final(nav).history() == put_back_spec(old(nav).history(), self@.entry),
                    Ok(t) => r@ == BackStepView::Read(RereadingView { entry: self@.entry, path: local_path(t) })
                        && final(nav).history() == old(nav).history(),
                },
            },
    {
        let (canonical, facts) = match looked {
            Err(e) => {
                put_back(nav, self.entry);
                return BackStep::Failed(e);
            },
            Ok(found) => found,
        };
        let limit = self.entry.limit();
        match LinkTarget::LocalDoc(self.joined).locate(canonical, facts, limit) {
            Err(e) => {
                put_back(nav, self.entry);
                BackStep::Failed(e)
            },
            Ok(t) => {
                let path = match t {
                    LinkTarget::LocalDoc(p) => p,
                    LinkTarget::LocalFile(p) => p,
                    LinkTarget::Url(_) => Vec::new(),
                };
                BackStep::Read(Rereading { entry: self.entry, path })
            },
        }
    }
}

impl Rereading {
    /// The canonical path to read.
    pub fn path(&self) -> (p: &[u8])
        ensures
            p@ == self@.path,
    {
        self.path.as_slice()
    }

    /// The ceiling the read is bounded by: the one the document was first
    /// admitted under.
    pub fn limit(&self) -> (l: u64)
        ensures
            l == self@.entry.limit,
    {
        self.entry.limit()
    }

    /// What the read gave: the document back at the scroll it was left at,
    /// or why not, with the entry put back for another try.
    pub fn read(self, nav: &mut Navigator, text: Result<String, LinkError>) -> (r: BackStep)
        ensures
            match text {
                Ok(t) => r@ == (BackStepView::Reopened { source: self@.entry.source, scroll: self@.entry.scroll, text: t@ })
                    && final(nav).history() == old(nav).history(),
                Err(e) => r@ == BackStepView::Failed(e@)
                    && final(nav).history() == put_back_spec(old(nav).history(), self@.entry),
            },
    {
        match text {
            Ok(t) => {
                let (source, scroll) = self.entry.into_place();
                BackStep::Reopened { source, scroll, text: t }
            },
            Err(e) => {
                put_back(nav, self.entry);
                BackStep::Failed(e)
            },
        }
    }
}

// ------------------------------------------------------------ laws

/// A follow pushes where the reader was, and nothing else, and only after
/// its target has been read: the steps before the read take the history by
/// shared reference, and a look-up that lets the read go ahead carries the
/// reader's document and scroll offset through unchanged, with room in the
/// history for the push the read makes.
pub proof fn law_a_follow_reads_before_it_pushes(history: Seq<EntryView>, href: Seq<char>, current: SourceView, scroll: usize, canonical: Option<Seq<u8>>, facts: FileFacts)
    ensures
        follow_spec(href, current, scroll) matches FollowStepView::Locate(l) ==> {
            &&& l.current == current
            &&& l.scroll == scroll
            &&& found_spec(history, l, canonical, facts) matches FollowStepView::Read(rv) ==> {
                &&& rv.current == current
                &&& rv.scroll == scroll
                &&& history.len() < MAX_STACK_DEPTH
            }
        },
{
}

/// A going-back that fails, at whatever step, leaves the history as it was
/// before it began: where it gets as far as taking the top entry off, that
/// entry is the top one, and putting it back restores the history exactly.
/// One that succeeds leaves the history one shorter.
pub proof fn law_a_failed_back_leaves_the_history_as_it_was(history: Seq<EntryView>)
    requires
        history.len() <= MAX_STACK_DEPTH,
    ensures
        back_spec(history) matches BackStepView::Locate(rv) ==> {
            &&& rv.entry == history.last()
            &&& back_history(history) == history.drop_last()
            &&& put_back_spec(back_history(history), rv.entry) == history
        },
        !(back_spec(history) is Locate) ==> back_history(history) == history,
{
    if back_spec(history) is Locate {
        assert(history.drop_last().push(history.last()) =~= history);
    }
}

} // verus!
