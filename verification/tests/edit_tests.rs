use stele::edit::{
    apply_summary, case_flipped, classify_link, count_of, differs_only_by_case, display_name,
    hard_links_unavailable, next_probe, not_attempted, probe_equivalence, probe_one, probe_verdict, removal, still_listed,
    validate_new_name, ProbeVia,
    EditBuffer, EditError, EditPlan, IoFailure, IoKind, LinkOutcome, NameFault, Operation, Removal, TargetSeen,
    EMLINK,
};
use stele::explore::{Entry, EntryKind, FileId, Listing, NameEquivalence};
use stele::rename::{RenameStep, Renaming};

fn failure(kind: IoKind, message: &str) -> IoFailure {
    IoFailure { kind, raw_os_error: None, message: message.to_string() }
}

fn raw(code: i32) -> IoFailure {
    IoFailure { kind: IoKind::Other, raw_os_error: Some(code), message: format!("os error {code}") }
}

#[test]
fn test_classify_link_routes_every_link_outcome() {
    assert!(matches!(classify_link(Ok(())), LinkOutcome::Linked));

    let taken = failure(IoKind::AlreadyExists, "File exists");
    assert!(matches!(classify_link(Err(taken)), LinkOutcome::Taken(_)));

    for unusable in [
        failure(IoKind::PermissionDenied, "protected_hardlinks"),
        failure(IoKind::Unsupported, "no hard links here"),
        raw(EMLINK),
    ] {
        let described = format!("{unusable:?}");
        assert!(
            matches!(classify_link(Err(unusable)), LinkOutcome::Unavailable),
            "{described} must fall back, not refuse a legal rename"
        );
    }

    for propagated in [failure(IoKind::NotFound, "gone"), failure(IoKind::Other, "something nobody anticipated")] {
        let described = format!("{propagated:?}");
        assert!(
            matches!(classify_link(Err(propagated)), LinkOutcome::Failed(_)),
            "{described} must propagate rather than fall back"
        );
    }
}

#[test]
fn test_classify_link_checks_for_a_collision_before_anything_else() {
    let both = failure(IoKind::AlreadyExists, "File exists");
    assert!(hard_links_unavailable(&failure(IoKind::PermissionDenied, "x")));
    assert!(
        matches!(classify_link(Err(both)), LinkOutcome::Taken(_)),
        "a taken name must win over the unavailability check"
    );
}

#[test]
fn test_case_flipped_declines_a_name_with_no_letters() {
    assert_eq!(case_flipped("readme"), Some("README".to_string()));
    assert_eq!(case_flipped("README"), Some("readme".to_string()));
    assert_eq!(case_flipped("2026-01-02"), None);
    assert_eq!(case_flipped(""), None);
}

#[test]
fn test_hard_links_unavailable_never_swallows_a_collision() {
    let taken = failure(IoKind::AlreadyExists, "exists");
    assert!(!hard_links_unavailable(&taken));
    assert!(!hard_links_unavailable(&failure(IoKind::Other, "something else")));
    assert!(hard_links_unavailable(&failure(IoKind::PermissionDenied, "protected_hardlinks")));
    assert!(hard_links_unavailable(&failure(IoKind::Unsupported, "no hard links here")));
    assert!(hard_links_unavailable(&raw(EMLINK)));
}

// ---- names

#[test]
fn validate_new_name_refuses_each_fault_in_order() {
    assert_eq!(validate_new_name("notes.md"), Ok(()));
    assert_eq!(validate_new_name(""), Err(NameFault::Blank));
    assert_eq!(validate_new_name("   "), Err(NameFault::Blank));
    assert_eq!(validate_new_name("\u{3000}"), Err(NameFault::Blank));
    assert_eq!(validate_new_name("a\0b"), Err(NameFault::Nul));
    assert_eq!(validate_new_name("a\nb"), Err(NameFault::Newline));
    assert_eq!(validate_new_name("a\rb"), Err(NameFault::Newline));
    assert_eq!(validate_new_name("../x"), Err(NameFault::Separator));
    assert_eq!(validate_new_name("sub/x"), Err(NameFault::Separator));
    assert_eq!(validate_new_name("."), Err(NameFault::Dot));
    assert_eq!(validate_new_name(".."), Err(NameFault::Dot));
    assert_eq!(validate_new_name("..."), Ok(()));
}

#[test]
fn every_name_fault_reads_as_prose() {
    assert_eq!(NameFault::Blank.message(), "a name cannot be empty or only whitespace");
    assert_eq!(NameFault::Separator.message(), "a name cannot contain a path separator");
    assert_eq!(NameFault::Dot.message(), "`.` and `..` are not names");
    assert_eq!(NameFault::Nul.message(), "a name cannot contain a NUL byte");
    assert_eq!(NameFault::Newline.message(), "a name cannot contain a line break");
    assert_eq!(NameFault::Escapes.message(), "that name does not stay inside this directory");
}

// ---- plans

fn entry(dir: &str, name: &str, kind: EntryKind) -> Entry {
    Entry {
        name: name.as_bytes().to_vec(),
        path: format!("{dir}/{name}").into_bytes(),
        kind,
    }
}

fn listing(names: &[&str]) -> Listing {
    let mut entries = vec![Entry { name: b"..".to_vec(), path: b"/".to_vec(), kind: EntryKind::Parent }];
    for n in names {
        entries.push(entry("/d", n, EntryKind::Document));
    }
    Listing::from_entries(b"/d".to_vec(), entries, false)
}

fn lines(buffer: &EditBuffer) -> Vec<String> {
    buffer.lines()
}

#[test]
fn an_untouched_buffer_is_an_empty_plan() {
    let read = listing(&["a.md", "b.md"]);
    let buffer = EditBuffer::new(&read);
    let plan = EditPlan::diff(&read, &lines(&buffer)).unwrap();
    assert!(plan.is_empty());
    assert_eq!(plan.len(), 0);
    assert_eq!(plan.confirmation(), "apply nothing? [y/n]");
}

#[test]
fn renames_and_creates_run_before_every_delete() {
    let read = listing(&["a.md", "b.md", "c.md"]);
    let edited = vec!["1\tz.md".to_string(), "\tnew.md".to_string()];
    let plan = EditPlan::diff(&read, &edited).unwrap();
    let ops = plan.operations();
    assert_eq!(ops.len(), 4);
    assert_eq!(ops[0], Operation::Rename { from: b"/d/a.md".to_vec(), to: b"/d/z.md".to_vec() });
    assert_eq!(ops[1], Operation::Create { path: b"/d/new.md".to_vec() });
    assert!(matches!(ops[2], Operation::Delete { .. }));
    assert!(matches!(ops[3], Operation::Delete { .. }));
    assert_eq!(plan.destructive().len(), 2);
    assert_eq!(plan.dir(), b"/d");
    assert_eq!(plan.confirmation(), "apply 1 rename, 1 create, DELETE 2 (b.md, c.md)? [y/n]");
}

#[test]
fn a_truncated_listing_suppresses_its_deletes() {
    let mut entries = vec![Entry { name: b"..".to_vec(), path: b"/".to_vec(), kind: EntryKind::Parent }];
    entries.push(entry("/d", "a.md", EntryKind::Document));
    entries.push(entry("/d", "b.md", EntryKind::Document));
    let read = Listing::from_entries(b"/d".to_vec(), entries, true);
    let plan = EditPlan::diff(&read, &[]).unwrap();
    assert!(plan.is_empty());
    assert_eq!(plan.suppressed_deletes(), 2);
    assert_eq!(
        plan.confirmation(),
        "apply nothing? [y/n]  (2 removed rows ignored: the listing was capped, so absence cannot mean removal)"
    );
}

#[test]
fn the_confirmation_names_six_deletes_and_counts_the_rest() {
    let names = ["a", "b", "c", "d", "e", "f", "g", "h"];
    let read = listing(&names);
    let plan = EditPlan::diff(&read, &[]).unwrap();
    assert_eq!(plan.confirmation(), "apply DELETE 8 (a, b, c, d, e, f and 2 more)? [y/n]");
}

#[test]
fn every_edit_error_is_reported_with_its_row() {
    let read = listing(&["a.md", "b.md"]);
    let cases: Vec<(Vec<&str>, &str)> = vec![
        (vec!["no tab"], "line 1: not a buffer row"),
        (vec!["9\tx"], "line 1: no entry 9 in this listing"),
        (vec!["1\ta.md", "1\tb.md"], "line 2: entry 1 is named twice"),
        (vec!["0\t../"], "line 1: the `../` row cannot be edited"),
        (vec!["\ta/b"], "line 1: `a/b` — a name cannot contain a path separator"),
        (vec!["1\tb.md", "2\tb.md"], "line 1: `b.md` already exists here — move it away in a separate write first"),
        (vec!["\tx.md", "\tx.md"], "two rows both name `x.md`"),
        (vec!["\tdir/"], "line 1: `dir/` — this phase creates files, not directories"),
    ];
    for (edited, expected) in cases {
        let edited: Vec<String> = edited.into_iter().map(String::from).collect();
        let err = EditPlan::diff(&read, &edited).expect_err(expected);
        assert_eq!(err.message(), expected);
    }
}

#[test]
fn a_folding_filesystem_reports_both_spellings() {
    let read = listing(&["Target.md", "b.md"]).with_equivalence(NameEquivalence::Folded);
    let edited = vec!["1\tTarget.md".to_string(), "2\ttarget.md".to_string()];
    let err = EditPlan::diff(&read, &edited).unwrap_err();
    assert!(matches!(err, EditError::NameTaken { .. }));
    assert_eq!(
        err.message(),
        "line 2: `target.md` and `Target.md`, which already exists here, are one name on this filesystem"
    );
}

#[test]
fn an_inconsistent_listing_is_refused() {
    let entries = vec![entry("/elsewhere", "a.md", EntryKind::Document)];
    let read = Listing::from_entries(b"/d".to_vec(), entries, false);
    let err = EditPlan::diff(&read, &["0\ta.md".to_string()]).unwrap_err();
    assert!(matches!(err, EditError::InconsistentListing { .. }));
}

// ---- applying

#[test]
fn a_failed_rename_spares_every_delete() {
    let read = listing(&["a.md", "b.md"]);
    let plan = EditPlan::diff(&read, &["1\tz.md".to_string()]).unwrap();
    let mut run = plan.apply(None);
    let first = run.next().cloned().unwrap();
    assert!(matches!(first, Operation::Rename { .. }));
    run.record(Err(failure(IoKind::Other, "disk full")));
    assert!(run.next().is_none(), "nothing may run after a failed rename");
    let results = run.results();
    assert_eq!(results.len(), 2);
    assert_eq!(results[1].1, Err(not_attempted()));
    assert_eq!(
        apply_summary(&results),
        "applied 0 of 2, 2 failed — rename a.md to z.md: disk full"
    );
}

#[test]
fn deletes_are_attempted_one_by_one() {
    let read = listing(&["a.md", "b.md"]);
    let plan = EditPlan::diff(&read, &[]).unwrap();
    let mut run = plan.apply(None);
    assert!(run.next().is_some());
    run.record(Err(failure(IoKind::Other, "directory not empty")));
    assert!(run.next().is_some(), "a refused delete does not spare the next");
    run.record(Ok(()));
    assert!(run.is_finished());
    assert_eq!(
        apply_summary(&run.results()),
        "applied 1 of 2, 1 failed — delete a.md: directory not empty"
    );
}

#[test]
fn a_refused_plan_runs_nothing() {
    let read = listing(&["a.md"]);
    let plan = EditPlan::diff(&read, &["\tnew.md".to_string()]).unwrap();
    let seen = vec![TargetSeen { exists: true, folds_onto_source: false }; plan.len()];
    let refusal = plan.preflight(Ok(()), &seen);
    let expected = failure(IoKind::AlreadyExists, "new.md already exists — no operation ran");
    assert_eq!(refusal, Some(expected.clone()));
    let run = plan.apply(refusal);
    assert!(run.next().is_none());
    let results = run.results();
    assert_eq!(results.len(), 2);
    assert!(results.iter().all(|(_, r)| *r == Err(expected.clone())));
}

#[test]
fn a_case_only_rename_is_not_a_collision() {
    let read = listing(&["readme.md"]).with_equivalence(NameEquivalence::Exact);
    let plan = EditPlan::diff(&read, &["1\tREADME.md".to_string()]).unwrap();
    let seen = vec![TargetSeen { exists: true, folds_onto_source: true }];
    assert_eq!(plan.preflight(Ok(()), &seen), None);
    assert!(differs_only_by_case(b"/d/readme.md", b"/d/README.md"));
    assert!(!differs_only_by_case(b"/d/readme.md", b"/d/other.md"));
}

#[test]
fn a_swapped_directory_refuses_the_plan() {
    let plan = EditPlan::diff(&listing(&["a.md"]), &[]).unwrap();
    assert_eq!(plan.verify_dir(None), Ok(()), "a synthetic listing recorded nothing to check");
    let refusal = plan.preflight(Err("the listed directory is not the one that was read".to_string()), &[TargetSeen { exists: false, folds_onto_source: false }]);
    assert_eq!(
        refusal,
        Some(failure(IoKind::Other, "the listed directory is not the one that was read — no operation ran"))
    );
}

#[test]
fn a_delete_checks_the_identity_it_recorded() {
    let id = FileId { dev: 1, ino: 2 };
    assert_eq!(still_listed(Some(id), Some(id)), Ok(()));
    assert_eq!(
        still_listed(Some(id), Some(FileId { dev: 1, ino: 3 })).unwrap_err(),
        "this is not the file that was listed under that name — nothing was removed"
    );
    assert_eq!(still_listed(None, None), Ok(()));
}

#[test]
fn summaries_never_claim_success_over_a_failure() {
    assert_eq!(apply_summary(&[]), "nothing to write");
    let op = Operation::Create { path: b"/d/x.md".to_vec() };
    assert_eq!(apply_summary(&[(op.clone(), Ok(()))]), "applied 1 operation");
    assert_eq!(apply_summary(&[(op.clone(), Ok(())), (op.clone(), Ok(()))]), "applied 2 operations");
    assert_eq!(count_of(0, "create"), "0 creates");
    assert_eq!(count_of(1, "create"), "1 create");
    assert_eq!(count_of(12, "rename"), "12 renames");
}

#[test]
fn display_names_are_the_last_component_lossily() {
    assert_eq!(display_name(b"/d/notes.md"), "notes.md");
    assert_eq!(display_name(b"/d/caf\xff.md"), "caf\u{fffd}.md");
    assert_eq!(display_name(b"/"), "/");
}

#[test]
fn a_probe_flips_the_final_name_and_judges_by_identity() {
    let id = FileId { dev: 3, ino: 4 };
    assert_eq!(probe_one(b"/d/readme.md", Some(id)), Some(b"/d/README.MD".to_vec()));
    assert_eq!(probe_one(b"/d/readme.md", None), None);
    assert_eq!(probe_one(b"/d/2026", Some(id)), None);
    assert_eq!(probe_verdict(id, Some(id)), NameEquivalence::Folded);
    assert_eq!(probe_verdict(id, None), NameEquivalence::Exact);
}

#[test]
fn the_buffer_edits_only_what_it_may() {
    let read = listing(&["a.md"]);
    let mut buffer = EditBuffer::new(&read);
    assert!(!buffer.is_editable(0), "the parent row is never editable");
    assert!(buffer.is_editable(1));
    buffer.push_char(1, 'x');
    assert_eq!(buffer.text(1), Some("a.mdx"));
    assert!(buffer.is_dirty());
    buffer.pop_char(1);
    buffer.pop_char(1);
    assert_eq!(buffer.text(1), Some("a.m"));
    buffer.revert(1);
    assert_eq!(buffer.text(1), Some("a.md"));
    assert!(!buffer.is_dirty());
    buffer.toggle_removed(1);
    assert!(buffer.is_dirty());
    let at = buffer.insert_new(1);
    assert_eq!(at, 2);
    assert_eq!(buffer.len(), 3);
}

#[test]
fn test_probe_equivalence_folds_when_nothing_can_be_probed() {
    let read = Listing::from_entries(b"/tmp/probe-undecidable".to_vec(), Vec::new(), false);
    assert!(next_probe(&read).is_none());
    assert_eq!(probe_equivalence(&read, None), NameEquivalence::Folded);
}

#[test]
fn the_first_entry_that_can_answer_is_asked_before_the_directory() {
    let id = |ino| FileId { dev: 7, ino };
    let child = |name: &str, kind, ino| {
        (Entry { name: name.as_bytes().to_vec(), path: format!("/d/{name}").into_bytes(), kind }, Some(id(ino)))
    };
    // "2026" has no cased letter, so "notes.md" is the entry asked.
    let read = Listing::read(
        b"/d".to_vec(),
        Some(id(1)),
        vec![child("2026", EntryKind::Directory, 2), child("notes.md", EntryKind::Document, 3)],
        false,
        0,
        None,
    );
    let probe = next_probe(&read).expect("an entry can answer");
    assert_eq!(probe.path, b"/d/NOTES.MD".to_vec());
    assert_eq!(probe.recorded, id(3));
    assert_eq!(probe.via, ProbeVia::Link);
    assert_eq!(probe_equivalence(&read, Some(id(3))), NameEquivalence::Folded);
    assert_eq!(probe_equivalence(&read, None), NameEquivalence::Exact);
    assert_eq!(probe_equivalence(&read, Some(id(4))), NameEquivalence::Exact);
}

#[test]
fn with_no_entry_to_ask_the_directory_answers() {
    let read = Listing::read(b"/home/Notes".to_vec(), Some(FileId { dev: 7, ino: 1 }), Vec::new(), false, 0, None);
    let probe = next_probe(&read).expect("the directory can answer");
    assert_eq!(probe.path, b"/home/NOTES".to_vec());
    assert_eq!(probe.via, ProbeVia::Resolved);
    assert_eq!(probe_equivalence(&read, Some(FileId { dev: 7, ino: 1 })), NameEquivalence::Folded);
}

#[test]
fn the_deletes_are_the_unnamed_entries_in_entry_order() {
    let read = listing(&["a.md", "b.md", "c.md", "d.md"]);
    let plan = EditPlan::diff(&read, &["3\tc.md".to_string()]).unwrap();
    let paths: Vec<Vec<u8>> = plan
        .operations()
        .iter()
        .map(|op| match op {
            Operation::Delete { path, .. } => path.clone(),
            other => panic!("only deletes expected, got {other:?}"),
        })
        .collect();
    assert_eq!(paths, vec![b"/d/a.md".to_vec(), b"/d/b.md".to_vec(), b"/d/d.md".to_vec()]);
    assert_eq!(plan.suppressed_deletes(), 0);
}

#[test]
fn a_refusal_keeps_its_kind() {
    let plan = EditPlan::diff(&listing(&["a.md"]), &["1\tb.md".to_string()]).unwrap();
    let refusal = plan.preflight(Ok(()), &[TargetSeen { exists: true, folds_onto_source: false }, TargetSeen { exists: false, folds_onto_source: false }]).unwrap();
    assert_eq!(refusal.kind, IoKind::AlreadyExists);
    assert_eq!(not_attempted().kind, IoKind::Other);
}

#[test]
fn test_removal_refuses_a_swapped_name_and_never_recurses() {
    let listed = FileId { dev: 1, ino: 7 };
    let swapped = FileId { dev: 1, ino: 8 };
    match removal(Some(listed), Some(swapped), false, false) {
        Removal::Refuse(reason) => assert_eq!(
            reason,
            "this is not the file that was listed under that name — nothing was removed"
        ),
        other => panic!("a swapped name must be refused, got {other:?}"),
    }
    assert!(matches!(removal(Some(listed), None, false, false), Removal::Refuse(_)));
    assert_eq!(removal(Some(listed), Some(listed), true, true), Removal::UnlinkName);
    assert_eq!(removal(Some(listed), Some(listed), false, false), Removal::UnlinkName);
    assert_eq!(removal(Some(listed), Some(listed), false, true), Removal::RemoveEmptyDir);
    assert_eq!(removal(None, Some(swapped), false, true), Removal::RemoveEmptyDir);
    assert_eq!(removal(None, None, true, false), Removal::UnlinkName);
}

fn renaming(from: &str, to: &str) -> Renaming {
    match Renaming::start(from.as_bytes().to_vec(), to.as_bytes().to_vec()) {
        RenameStep::InspectSource(r) => r,
        other => panic!("a rename looks at its source first, got {other:?}"),
    }
}

#[test]
fn a_regular_file_is_linked_then_unlinked() {
    let r = renaming("d/a.md", "d/b.md");
    assert_eq!(r.from(), b"d/a.md");
    assert_eq!(r.to(), b"d/b.md");
    let r = match r.source_seen(Ok(true)) {
        RenameStep::Link(r) => r,
        other => panic!("got {other:?}"),
    };
    let r = match r.linked(Ok(())) {
        RenameStep::UnlinkSource(r) => r,
        other => panic!("got {other:?}"),
    };
    assert!(matches!(r.unlinked(Ok(())), RenameStep::Done(Ok(()))));
}

#[test]
fn a_taken_name_is_refused_by_the_link_itself() {
    let taken = raw(17);
    let taken = IoFailure { kind: IoKind::AlreadyExists, ..taken };
    let r = match renaming("d/a.md", "d/b.md").source_seen(Ok(true)) {
        RenameStep::Link(r) => r,
        other => panic!("got {other:?}"),
    };
    match r.linked(Err(taken.clone())) {
        RenameStep::Done(Err(f)) => assert_eq!(f, taken),
        other => panic!("a collision must be refused, got {other:?}"),
    }
}

#[test]
fn a_case_only_rename_onto_its_own_fold_goes_ahead_only_without_an_exact_spelling() {
    let taken = IoFailure { kind: IoKind::AlreadyExists, raw_os_error: Some(17), message: "File exists".to_string() };
    let linking = || match renaming("d/readme.md", "d/README.md").source_seen(Ok(true)) {
        RenameStep::Link(r) => r,
        other => panic!("got {other:?}"),
    };
    let (r, refusal) = match linking().linked(Err(taken.clone())) {
        RenameStep::ListTarget(r, refusal) => (r, refusal),
        other => panic!("a case-only rename looks at the directory, got {other:?}"),
    };
    assert_eq!(refusal, taken);
    assert!(matches!(r.listed(refusal, Ok(false)), RenameStep::Move(_)));
    let (r, refusal) = match linking().linked(Err(taken.clone())) {
        RenameStep::ListTarget(r, refusal) => (r, refusal),
        other => panic!("got {other:?}"),
    };
    match r.listed(refusal, Ok(true)) {
        RenameStep::Done(Err(f)) => assert_eq!(f, taken, "an exact spelling is a real collision"),
        other => panic!("got {other:?}"),
    }
    let (r, refusal) = match linking().linked(Err(taken.clone())) {
        RenameStep::ListTarget(r, refusal) => (r, refusal),
        other => panic!("got {other:?}"),
    };
    assert!(matches!(r.listed(refusal, Err(failure(IoKind::PermissionDenied, "denied"))), RenameStep::Done(Err(f)) if f.kind == IoKind::PermissionDenied));
}

#[test]
fn without_hard_links_the_new_name_is_looked_at_before_renaming() {
    for unavailable in [raw(EMLINK), failure(IoKind::PermissionDenied, "no"), failure(IoKind::Unsupported, "no")] {
        let r = match renaming("d/a.md", "d/b.md").source_seen(Ok(true)) {
            RenameStep::Link(r) => r,
            other => panic!("got {other:?}"),
        };
        let r = match r.linked(Err(unavailable)) {
            RenameStep::InspectTarget(r) => r,
            other => panic!("unavailable links fall back, got {other:?}"),
        };
        assert!(matches!(r.target_seen(false), RenameStep::Move(_)));
    }
    let r = match renaming("d/a.md", "d/b.md").source_seen(Ok(true)) {
        RenameStep::Link(r) => r,
        other => panic!("got {other:?}"),
    };
    let r = match r.linked(Err(raw(EMLINK))) {
        RenameStep::InspectTarget(r) => r,
        other => panic!("got {other:?}"),
    };
    match r.target_seen(true) {
        RenameStep::Done(Err(f)) => {
            assert_eq!(f.kind, IoKind::AlreadyExists);
            assert_eq!(f.message, "b.md already exists");
        }
        other => panic!("an occupied name is refused, got {other:?}"),
    }
    let r = match renaming("d/a.md", "d/b.md").source_seen(Ok(true)) {
        RenameStep::Link(r) => r,
        other => panic!("got {other:?}"),
    };
    assert!(matches!(r.linked(Err(raw(5))), RenameStep::Done(Err(f)) if f.raw_os_error == Some(5)));
}

#[test]
fn a_directory_or_symlink_is_renamed_only_onto_a_free_name() {
    let r = match renaming("d/sub", "d/other").source_seen(Ok(false)) {
        RenameStep::InspectTarget(r) => r,
        other => panic!("got {other:?}"),
    };
    assert!(matches!(r.target_seen(true), RenameStep::Done(Err(_))));
    let r = match renaming("d/sub", "d/other").source_seen(Ok(false)) {
        RenameStep::InspectTarget(r) => r,
        other => panic!("got {other:?}"),
    };
    assert!(matches!(r.target_seen(false), RenameStep::Move(_)));
    assert!(matches!(
        renaming("d/gone", "d/other").source_seen(Err(failure(IoKind::NotFound, "missing"))),
        RenameStep::Done(Err(f)) if f.kind == IoKind::NotFound
    ));
}

#[test]
fn a_failed_unlink_takes_the_link_back_only_while_it_names_the_same_file() {
    let same = FileId { dev: 3, ino: 9 };
    let other = FileId { dev: 3, ino: 10 };
    let unlink_failed = || {
        let r = match renaming("d/a.md", "d/b.md").source_seen(Ok(true)) {
            RenameStep::Link(r) => r,
            other => panic!("got {other:?}"),
        };
        let r = match r.linked(Ok(())) {
            RenameStep::UnlinkSource(r) => r,
            other => panic!("got {other:?}"),
        };
        match r.unlinked(Err(failure(IoKind::PermissionDenied, "read-only"))) {
            RenameStep::Identify(r, f) => (r, f),
            other => panic!("got {other:?}"),
        }
    };
    let (r, f) = unlink_failed();
    assert!(matches!(r.identified(f, Some(same), Some(same)), RenameStep::RemoveLink(_, f) if f.message == "read-only"));
    let (r, f) = unlink_failed();
    assert!(matches!(r.identified(f, Some(other), Some(same)), RenameStep::Done(Err(f)) if f.message == "read-only"));
    let (r, f) = unlink_failed();
    assert!(matches!(r.identified(f, None, None), RenameStep::Done(Err(_))));
}
