//! Renaming without replacing: the decisions between the system calls.
//!
//! A regular file is moved by linking it under the new name — a call the
//! kernel refuses when that name is taken — and then unlinking the old one.
//! Where links are not usable, or the source is not a regular file, the new
//! name is looked at first and `rename(2)` runs only when nothing is there.
//! A name that is taken only because the filesystem folds case onto the
//! source itself is no collision: the rename goes ahead when the directory
//! holds no entry spelled exactly like the new name.

use vstd::prelude::*;
use crate::edit::{
    already_exists, already_exists_spec, case_only_spec, classify_link, differs_only_by_case,
    links_unavailable_spec, FailureView, IoFailure, IoKind, LinkOutcome,
};
use crate::explore::FileId;

verus! {

/// A rename of `from` to `to` under way.
#[derive(Debug)]
pub struct Renaming {
    from: Vec<u8>,
    to: Vec<u8>,
}

/// A [`Renaming`], as values: the source and the new name.
pub ghost struct RenamingView {
    pub from: Seq<u8>,
    pub to: Seq<u8>,
}

impl View for Renaming {
    type V = RenamingView;

    closed spec fn view(&self) -> RenamingView {
        RenamingView { from: self.from@, to: self.to@ }
    }
}

/// The system call a rename waits on, or how it ended.
#[derive(Debug)]
pub enum RenameStep {
    /// `lstat` the source and report whether it is a regular file to
    /// [`Renaming::source_seen`].
    InspectSource(Renaming),
    /// `link(2)` the source under the new name and report to [`Renaming::linked`].
    Link(Renaming),
    /// Unlink the source and report to [`Renaming::unlinked`].
    UnlinkSource(Renaming),
    /// `lstat` the new name and report whether anything is there to
    /// [`Renaming::target_seen`].
    InspectTarget(Renaming),
    /// Read the new name's directory for an entry spelled exactly like it and
    /// report to [`Renaming::listed`]; the failure is the refusal a rename
    /// that only changes case escapes.
    ListTarget(Renaming, IoFailure),
    /// `rename(2)`: its outcome is the rename's.
    Move(Renaming),
    /// Unlinking the source failed with the failure held here: identify both
    /// names (`lstat`, not following a symlink) and report to
    /// [`Renaming::identified`].
    Identify(Renaming, IoFailure),
    /// Remove the new name, a second link to the source that is being taken
    /// back; whatever that gives, the rename fails with the failure held here.
    RemoveLink(Renaming, IoFailure),
    /// Finished.
    Done(Result<(), IoFailure>),
}

/// A [`RenameStep`], as values.
pub ghost enum RenameStepView {
    InspectSource(RenamingView),
    Link(RenamingView),
    UnlinkSource(RenamingView),
    InspectTarget(RenamingView),
    ListTarget(RenamingView, FailureView),
    Move(RenamingView),
    Identify(RenamingView, FailureView),
    RemoveLink(RenamingView, FailureView),
    Done(Result<(), FailureView>),
}

impl View for RenameStep {
    type V = RenameStepView;

    open spec fn view(&self) -> RenameStepView {
        match self {
            RenameStep::InspectSource(r) => RenameStepView::InspectSource(r@),
            RenameStep::Link(r) => RenameStepView::Link(r@),
            RenameStep::UnlinkSource(r) => RenameStepView::UnlinkSource(r@),
            RenameStep::InspectTarget(r) => RenameStepView::InspectTarget(r@),
            RenameStep::ListTarget(r, f) => RenameStepView::ListTarget(r@, f@),
            RenameStep::Move(r) => RenameStepView::Move(r@),
            RenameStep::Identify(r, f) => RenameStepView::Identify(r@, f@),
            RenameStep::RemoveLink(r, f) => RenameStepView::RemoveLink(r@, f@),
            RenameStep::Done(Ok(())) => RenameStepView::Done(Ok(())),
            RenameStep::Done(Err(f)) => RenameStepView::Done(Err(f@)),
        }
    }
}

/// An outcome, as values.
pub open spec fn io_view(r: Result<(), IoFailure>) -> Result<(), FailureView> {
    match r {
        Ok(()) => Ok(()),
        Err(f) => Err(f@),
    }
}

/// Where a name found taken leads: to a look at the directory when the
/// rename only changes case, and otherwise to the refusal.
pub open spec fn taken_spec(r: RenamingView, refusal: FailureView) -> RenameStepView {
    if case_only_spec(r.from, r.to) {
        RenameStepView::ListTarget(r, refusal)
    } else {
        RenameStepView::Done(Err(refusal))
    }
}

/// What the source turned out to be: a regular file is linked; anything
/// else is renamed only after the new name has been looked at.
pub open spec fn source_seen_spec(r: RenamingView, seen: Result<bool, FailureView>) -> RenameStepView {
    match seen {
        Err(f) => RenameStepView::Done(Err(f)),
        Ok(true) => RenameStepView::Link(r),
        Ok(false) => RenameStepView::InspectTarget(r),
    }
}

/// What `link(2)` answered: linked, the source is unlinked next; a taken
/// name is refused unless the rename only changes case; where links are not
/// usable, the new name is looked at; anything else ends the rename.
pub open spec fn linked_spec(r: RenamingView, result: Result<(), IoFailure>) -> RenameStepView {
    match result {
        Ok(()) => RenameStepView::UnlinkSource(r),
        Err(e) => if e.kind == IoKind::AlreadyExists {
            taken_spec(r, e@)
        } else if links_unavailable_spec(e) {
            RenameStepView::InspectTarget(r)
        } else {
            RenameStepView::Done(Err(e@))
        },
    }
}

/// The refusal of a rename onto a name something already holds.
pub open spec fn taken_refusal(to: Seq<u8>) -> FailureView {
    FailureView { kind: IoKind::AlreadyExists, raw_os_error: None, message: already_exists_spec(to) }
}

/// What was at the new name: nothing, and the rename goes ahead; something,
/// and it is refused unless the rename only changes case.
pub open spec fn target_seen_spec(r: RenamingView, exists: bool) -> RenameStepView {
    if exists {
        taken_spec(r, taken_refusal(r.to))
    } else {
        RenameStepView::Move(r)
    }
}

/// What the directory holds: an entry spelled exactly like the new name is
/// a real collision and keeps the refusal; none, and the rename goes ahead.
pub open spec fn listed_spec(r: RenamingView, refusal: FailureView, holds: Result<bool, FailureView>) -> RenameStepView {
    match holds {
        Err(f) => RenameStepView::Done(Err(f)),
        Ok(true) => RenameStepView::Done(Err(refusal)),
        Ok(false) => RenameStepView::Move(r),
    }
}

/// After a failed unlink: the link is taken back only while the new name is
/// still a second name for the file the source names.
pub open spec fn identified_spec(r: RenamingView, failure: FailureView, to_id: Option<FileId>, from_id: Option<FileId>) -> RenameStepView {
    if to_id is Some && to_id == from_id {
        RenameStepView::RemoveLink(r, failure)
    } else {
        RenameStepView::Done(Err(failure))
    }
}

impl Renaming {
    /// Starts renaming `from` to `to`: the source is looked at first.
    pub fn start(from: Vec<u8>, to: Vec<u8>) -> (s: RenameStep)
        ensures
            s@ == RenameStepView::InspectSource(RenamingView { from: from@, to: to@ }),
    {
        RenameStep::InspectSource(Renaming { from, to })
    }

    /// The source.
    pub fn from(&self) -> (p: &[u8])
        ensures
            p@ == self@.from,
    {
        self.from.as_slice()
    }

    /// The new name.
    pub fn to(&self) -> (p: &[u8])
        ensures
            p@ == self@.to,
    {
        self.to.as_slice()
    }

    fn taken(self, refusal: IoFailure) -> (s: RenameStep)
        ensures
            s@ == taken_spec(self@, refusal@),
    {
        if differs_only_by_case(self.from.as_slice(), self.to.as_slice()) {
            RenameStep::ListTarget(self, refusal)
        } else {
            RenameStep::Done(Err(refusal))
        }
    }

    /// Whether the source is a regular file, or why it could not be looked at.
    pub fn source_seen(self, seen: Result<bool, IoFailure>) -> (s: RenameStep)
        ensures
            s@ == source_seen_spec(self@, match seen {
                Ok(b) => Ok(b),
                Err(f) => Err(f@),
            }),
    {
        match seen {
            Err(f) => RenameStep::Done(Err(f)),
            Ok(true) => RenameStep::Link(self),
            Ok(false) => RenameStep::InspectTarget(self),
        }
    }

    /// What `link(2)` answered.
    pub fn linked(self, result: Result<(), IoFailure>) -> (s: RenameStep)
        ensures
            s@ == linked_spec(self@, result),
    {
        match classify_link(result) {
            LinkOutcome::Linked => RenameStep::UnlinkSource(self),
            LinkOutcome::Taken(f) => self.taken(f),
            LinkOutcome::Unavailable => RenameStep::InspectTarget(self),
            LinkOutcome::Failed(f) => RenameStep::Done(Err(f)),
        }
    }

    /// What unlinking the source answered.
    pub fn unlinked(self, result: Result<(), IoFailure>) -> (s: RenameStep)
        ensures
            match result {
                Ok(()) => s@ == RenameStepView::Done(Ok(())),
                Err(f) => s@ == RenameStepView::Identify(self@, f@),
            },
    {
        match result {
            Ok(()) => RenameStep::Done(Ok(())),
            Err(f) => RenameStep::Identify(self, f),
        }
    }

    /// What both names are after a failed unlink, `None` where one could
    /// not be looked at; `failure` is the unlink's.
    pub fn identified(self, failure: IoFailure, to_id: Option<FileId>, from_id: Option<FileId>) -> (s: RenameStep)
        ensures
            s@ == identified_spec(self@, failure@, to_id, from_id),
    {
        let same = match (to_id, from_id) {
            (Some(a), Some(b)) => a.dev == b.dev && a.ino == b.ino,
            _ => false,
        };
        if same {
            RenameStep::RemoveLink(self, failure)
        } else {
            RenameStep::Done(Err(failure))
        }
    }

    /// Whether anything is at the new name.
    pub fn target_seen(self, exists: bool) -> (s: RenameStep)
        ensures
            s@ == target_seen_spec(self@, exists),
    {
        if exists {
            let message = already_exists(self.to.as_slice());
            self.taken(IoFailure { kind: IoKind::AlreadyExists, raw_os_error: None, message })
        } else {
            RenameStep::Move(self)
        }
    }

    /// Whether the new name's directory holds an entry spelled exactly like
    /// it, or why it could not be read; `refusal` is what a real collision
    /// is answered.
    pub fn listed(self, refusal: IoFailure, holds: Result<bool, IoFailure>) -> (s: RenameStep)
        ensures
            s@ == listed_spec(self@, refusal@, match holds {
                Ok(b) => Ok(b),
                Err(f) => Err(f@),
            }),
    {
        match holds {
            Err(f) => RenameStep::Done(Err(f)),
            Ok(true) => RenameStep::Done(Err(refusal)),
            Ok(false) => RenameStep::Move(self),
        }
    }
}

/// A rename never moves onto a name something else holds: `rename(2)` is
/// reached only from a look at the new name that found nothing there, or
/// from a directory read that found no entry spelled exactly like it — and
/// that read is made only for a rename that changes nothing but case. A
/// regular file is always offered to `link(2)` first, which refuses a taken
/// name itself, and a taken name is never mistaken for links being
/// unavailable. The link a failed unlink leaves is taken back only while it
/// still names the source's file.
pub proof fn law_a_rename_never_replaces(r: RenamingView, exists: bool, refusal: FailureView, holds: Result<bool, FailureView>, result: Result<(), IoFailure>, failure: FailureView, to_id: Option<FileId>, from_id: Option<FileId>)
    ensures
        target_seen_spec(r, exists) is Move ==> !exists,
        listed_spec(r, refusal, holds) is Move ==> holds == Ok::<bool, FailureView>(false),
        taken_spec(r, refusal) is ListTarget ==> case_only_spec(r.from, r.to),
        !(taken_spec(r, refusal) is Move),
        source_seen_spec(r, Ok(true)) is Link,
        (result matches Err(e) && e.kind == IoKind::AlreadyExists) ==> !(linked_spec(r, result) is InspectTarget)
            && !(linked_spec(r, result) is Move),
        identified_spec(r, failure, to_id, from_id) is RemoveLink ==> to_id is Some && to_id == from_id,
{
}

} // verus!
