use stele::link::{
    admit_file, admit_text, is_binary, is_markdown_path, opener_argv, percent_decoded, validated_url,
    DocumentStack, FileFacts, LinkError, LinkTarget, Navigator, UrlOpener, BINARY_SNIFF_BYTES,
    MAX_LINK_FILE_BYTES, MAX_STACK_DEPTH, MAX_URL_BYTES, OPENER_PROGRAM, MACOS_OPENER_PROGRAM, opener_program,
};
use stele::follow::{BackStep, FollowStep};
use stele::loader::{DocumentSource, LoadError, MAX_DOCUMENT_BYTES};

fn here() -> &'static [u8] {
    b"."
}

#[test]
fn test_dw_6_3_an_http_link_reaches_the_opener_as_a_single_argv_element() {
    let url = "https://example.com/a b?q=1&r=2";
    for macos in [false, true] {
        let (program, args) = opener_argv(url, macos);
        assert_eq!(args.len(), 1, "the URL must be exactly one argv element");
        assert_eq!(args[0], url, "the URL must reach the opener unmodified");
        assert_eq!(program, opener_program(macos));
    }
    assert_eq!(opener_program(false), OPENER_PROGRAM);
    assert_eq!(opener_program(true), MACOS_OPENER_PROGRAM);
}

#[test]
fn test_dw_6_3_the_opener_argv_names_a_real_program_and_never_a_shell() {
    for macos in [false, true] {
        let (program, _) = opener_argv("http://example.com", macos);
        for shell in ["sh", "bash", "zsh", "cmd", "cmd.exe", "powershell"] {
            assert_ne!(program, shell, "the opener must never be a shell");
        }
        assert!(program == "open" || program == "xdg-open", "unexpected opener program {program:?}");
    }
    assert_eq!(opener_argv("http://example.com", true).0, "open");
    assert_eq!(opener_argv("http://example.com", false).0, "xdg-open");
}

#[test]
fn test_dw_6_5_a_newline_inside_a_url_is_refused_rather_than_passed_to_the_opener() {
    for hostile in [
        "https://example.com/\nrm -rf /",
        "https://example.com/\r\nSet-Cookie: x",
        "http://example.com/\x00",
        "https://example.com/\x1b]52;c;cGF5bG9hZA==\x07",
    ] {
        let err = LinkTarget::classify(hostile)
            .expect("the scheme is allowed; the body is what is hostile")
            .resolve(here())
            .expect_err("a control byte in a URL must be refused, not stripped");
        assert!(matches!(err, LinkError::MalformedUrl), "{hostile:?} produced {err:?}");
    }
}

#[test]
fn test_a_bidi_spoofed_url_is_refused_so_preview_and_activation_agree() {
    for hostile in [
        "https://example.com/\u{202e}exe.dm",
        "https://example.com/\u{2066}safe.md\u{2069}/evil.exe",
        "https://example.com/\u{206b}payload",
    ] {
        let err = LinkTarget::classify(hostile)
            .expect("the scheme is allowed; the body is what is hostile")
            .resolve(here())
            .expect_err("a bidi control in a URL must be refused, not opened");
        assert!(matches!(err, LinkError::MalformedUrl), "{hostile:?} produced {err:?}");
    }
}

#[test]
fn test_a_url_carrying_a_directional_mark_still_opens() {
    let url = "https://example.com/\u{200f}מסמך.md";
    let resolved = LinkTarget::classify(url)
        .expect("scheme is fine")
        .resolve(here())
        .expect("a directional mark is not a spoof and must not be refused");
    assert!(
        matches!(&resolved, LinkTarget::Url(u) if u.contains('\u{200f}')),
        "the mark must survive validation intact, got {resolved:?}"
    );
}

#[test]
fn test_dw_6_5_a_url_past_the_length_ceiling_is_refused() {
    let long = format!("https://example.com/{}", "a".repeat(MAX_URL_BYTES));
    let err = LinkTarget::classify(&long)
        .expect("scheme is fine")
        .resolve(here())
        .expect_err("an over-long URL must be refused");
    assert!(matches!(err, LinkError::MalformedUrl));
}

#[test]
fn test_classification_splits_markdown_other_files_and_urls() {
    assert_eq!(LinkTarget::classify("notes.md").unwrap(), LinkTarget::LocalDoc(b"notes.md".to_vec()));
    assert_eq!(LinkTarget::classify("READ.MARKDOWN").unwrap(), LinkTarget::LocalDoc(b"READ.MARKDOWN".to_vec()));
    assert_eq!(LinkTarget::classify("src/main.rs").unwrap(), LinkTarget::LocalFile(b"src/main.rs".to_vec()));
    assert_eq!(LinkTarget::classify("/etc/hosts").unwrap(), LinkTarget::LocalFile(b"/etc/hosts".to_vec()));
    assert_eq!(
        LinkTarget::classify("https://example.com").unwrap(),
        LinkTarget::Url("https://example.com".to_string())
    );
}

#[test]
fn test_an_empty_or_fragment_only_destination_is_refused() {
    assert!(matches!(LinkTarget::classify(""), Err(LinkError::Empty)));
    assert!(matches!(LinkTarget::classify("   "), Err(LinkError::Empty)));
    assert!(matches!(LinkTarget::classify("#section"), Err(LinkError::Fragment)));
    assert!(matches!(LinkTarget::classify("?q=1"), Err(LinkError::Fragment)));
}

#[test]
fn test_a_query_or_fragment_suffix_is_dropped_from_a_local_path() {
    assert_eq!(LinkTarget::classify("notes.md#heading").unwrap(), LinkTarget::LocalDoc(b"notes.md".to_vec()));
    assert_eq!(LinkTarget::classify("notes.md?v=2").unwrap(), LinkTarget::LocalDoc(b"notes.md".to_vec()));
}

#[test]
fn test_percent_escapes_in_a_local_path_are_decoded_but_a_nul_is_dropped() {
    assert_eq!(percent_decoded("my%20notes.md"), "my notes.md");
    assert_eq!(percent_decoded("100%"), "100%");
    assert_eq!(percent_decoded("a%zzb"), "a%zzb");
    assert_eq!(
        percent_decoded("evil%00.md"),
        "evil.md",
        "a decoded NUL would truncate the path at the syscall boundary"
    );
}

#[test]
fn test_a_scheme_like_prefix_that_is_not_a_scheme_stays_a_path() {
    assert_eq!(LinkTarget::classify("2026:notes.md").unwrap(), LinkTarget::LocalDoc(b"2026:notes.md".to_vec()));
    assert_eq!(LinkTarget::classify("my_scheme:x").unwrap(), LinkTarget::LocalFile(b"my_scheme:x".to_vec()));
}

#[test]
fn test_a_bare_scheme_with_no_target_is_refused() {
    let err = LinkTarget::classify("https:")
        .expect("classified as a URL")
        .resolve(here())
        .expect_err("a scheme with nothing after it opens nothing");
    assert!(matches!(err, LinkError::MalformedUrl));
}

#[test]
fn test_the_binary_sniff_looks_only_at_a_bounded_prefix() {
    let mut head = vec![b'a'; BINARY_SNIFF_BYTES];
    head.push(0);
    assert!(!is_binary(&head), "a NUL past the sniff window is not what this heuristic claims to catch");
    let mut early = vec![b'a'; 16];
    early.push(0);
    assert!(is_binary(&early));
    assert!(!is_binary(b"# ordinary markdown\n"));
}

#[test]
fn test_the_document_stack_bounds_itself_and_pops_in_order() {
    let mut stack = DocumentStack::new();
    assert!(stack.is_empty());
    for i in 0..MAX_STACK_DEPTH {
        stack
            .push(DocumentSource::Path(format!("{i}.md").into_bytes()), i)
            .expect("within the ceiling");
    }
    assert!(matches!(stack.push(DocumentSource::Stdin, 0), Err(LinkError::StackTooDeep { .. })));
    for i in (0..MAX_STACK_DEPTH).rev() {
        let entry = stack.pop().expect("in reverse order");
        assert_eq!(entry.scroll, i);
    }
    assert!(stack.pop().is_none());
}

// ---- beyond the original's own suite

struct Recording(Vec<String>);

impl UrlOpener for Recording {
    fn open(&mut self, url: &str) -> Result<(), LinkError> {
        self.0.push(url.to_string());
        Ok(())
    }
}

#[test]
fn test_dw_6_2_back_at_the_root_reports_instead_of_popping() {
    let mut nav = Navigator::new();
    let err = match nav.back() {
        BackStep::Failed(err) => err,
        other => panic!("nothing to go back to, got {other:?}"),
    };
    assert!(matches!(err, LinkError::AtRoot));
    assert_eq!(err.message(), "already at the first document");
    assert_eq!(nav.depth(), 0);
}

#[test]
fn the_first_entry_keeps_the_command_line_ceiling_and_the_rest_the_link_one() {
    let mut stack = DocumentStack::new();
    stack.push(DocumentSource::Path(b"root.md".to_vec()), 3).unwrap();
    stack.push(DocumentSource::Path(b"linked.md".to_vec()), 5).unwrap();
    let linked = stack.pop().unwrap();
    assert_eq!(linked.limit(), MAX_LINK_FILE_BYTES);
    let root = stack.pop().unwrap();
    assert_eq!(root.limit(), MAX_DOCUMENT_BYTES);
    assert_eq!(root.scroll, 3);
}

#[test]
fn a_failed_return_puts_the_entry_back_exactly() {
    let mut nav = Navigator::new();
    nav.arrived(DocumentSource::Path(b"root.md".to_vec()), 7).unwrap();
    let entry = nav.leave().unwrap();
    assert_eq!(nav.depth(), 0);
    nav.restore(entry);
    assert_eq!(nav.depth(), 1);
    let again = nav.leave().unwrap();
    assert_eq!(again.limit(), MAX_DOCUMENT_BYTES);
    assert_eq!(again.scroll, 7);
}

#[test]
fn a_link_resolves_against_the_document_directory() {
    let nav = Navigator::new();
    let current = DocumentSource::Path(b"/tmp/notes/index.md".to_vec());
    assert_eq!(
        nav.target("other.md", &current).unwrap(),
        LinkTarget::LocalDoc(b"/tmp/notes/other.md".to_vec())
    );
    assert_eq!(nav.target("/etc/hosts", &current).unwrap(), LinkTarget::LocalFile(b"/etc/hosts".to_vec()));
    assert_eq!(
        nav.target("../up.md", &current).unwrap(),
        LinkTarget::LocalDoc(b"/tmp/notes/../up.md".to_vec())
    );
}

#[test]
fn a_url_is_handed_to_the_opener_verbatim() {
    let nav = Navigator::new();
    let mut opener = Recording(Vec::new());
    let checked = nav.hand_off("https://example.com/a").unwrap();
    opener.open(&checked).unwrap();
    assert_eq!(nav.depth(), 0);
    assert_eq!(opener.0, vec!["https://example.com/a".to_string()]);
}

#[test]
fn a_url_that_fails_validation_is_never_handed_over() {
    let nav = Navigator::new();
    assert!(matches!(nav.hand_off("https://example.com/\u{202e}gpj.exe"), Err(LinkError::MalformedUrl)));
    assert!(matches!(nav.hand_off("file:///etc/passwd"), Err(LinkError::UnsupportedScheme(s)) if s == "file"));
    assert!(matches!(nav.hand_off("https://example.com/a\nb"), Err(LinkError::MalformedUrl)));
}

#[test]
fn a_located_target_keeps_its_kind_or_is_missing_under_its_joined_path() {
    let facts = FileFacts { is_file: true, len: 10 };
    let doc = LinkTarget::LocalDoc(b"/d/./a.md".to_vec());
    assert_eq!(
        doc.clone().locate(Some(b"/d/a.md".to_vec()), facts, MAX_LINK_FILE_BYTES).unwrap(),
        LinkTarget::LocalDoc(b"/d/a.md".to_vec())
    );
    assert!(matches!(doc.clone().locate(None, facts, MAX_LINK_FILE_BYTES), Err(LinkError::Missing(p)) if p == b"/d/./a.md"));
    let file = LinkTarget::LocalFile(b"/d/x.png".to_vec());
    assert_eq!(
        file.clone().locate(Some(b"/e/x.png".to_vec()), facts, MAX_LINK_FILE_BYTES).unwrap(),
        LinkTarget::LocalFile(b"/e/x.png".to_vec())
    );
    let dir = FileFacts { is_file: false, len: 0 };
    assert!(matches!(file.locate(Some(b"/e".to_vec()), dir, MAX_LINK_FILE_BYTES), Err(LinkError::NotAFile(p)) if p == b"/e"));
    let big = FileFacts { is_file: true, len: MAX_LINK_FILE_BYTES + 1 };
    assert!(matches!(doc.clone().locate(Some(b"/d/a.md".to_vec()), big, MAX_LINK_FILE_BYTES), Err(LinkError::TooLarge { .. })));
    let exact = FileFacts { is_file: true, len: MAX_LINK_FILE_BYTES };
    assert!(doc.locate(Some(b"/d/a.md".to_vec()), exact, MAX_LINK_FILE_BYTES).is_ok());
    let url = LinkTarget::Url("https://example.com/".to_string());
    assert_eq!(url.clone().locate(None, dir, 0).unwrap(), url);
}

#[test]
fn other_schemes_are_refused_by_name() {
    for (href, scheme) in [("mailto:someone@example.com", "mailto"), ("FILE:///etc/hosts", "file"), ("javascript:alert(1)", "javascript")] {
        match LinkTarget::classify(href) {
            Err(LinkError::UnsupportedScheme(s)) => assert_eq!(s, scheme),
            other => panic!("{href} gave {other:?}"),
        }
    }
    assert_eq!(
        LinkError::UnsupportedScheme("file".to_string()).message(),
        "refusing to open a `file:` link — http/https only"
    );
}

#[test]
fn every_link_error_reads_as_prose() {
    assert_eq!(LinkError::Empty.message(), "link has no destination");
    assert_eq!(LinkError::Fragment.message(), "in-document anchors are not supported");
    assert_eq!(LinkError::MalformedUrl.message(), "refusing to open a malformed URL");
    assert_eq!(LinkError::Missing(b"/x".to_vec()).message(), "no such file: /x");
    assert_eq!(LinkError::NotAFile(b"/dev".to_vec()).message(), "not a regular file: /dev");
    assert_eq!(
        LinkError::TooLarge { limit: MAX_LINK_FILE_BYTES }.message(),
        "linked file is larger than the 8 MiB stele will open"
    );
    assert_eq!(LinkError::Binary(b"/b".to_vec()).message(), "refusing to open binary content: /b");
    assert_eq!(LinkError::Io("denied".to_string()).message(), "could not read linked file: denied");
    assert_eq!(
        LinkError::StackTooDeep { limit: 64 }.message(),
        "link history is 64 deep — go back before going on"
    );
    assert_eq!(
        LinkError::StreamNotRereadable.message(),
        "cannot go back to a document read from stdin — a stream is read once to end"
    );
    assert_eq!(LinkError::OpenerFailed("xdg-open: gone".to_string()).message(), "could not open the link: xdg-open: gone");
}

#[test]
fn a_target_is_admitted_only_as_a_bounded_regular_file() {
    let p = b"/tmp/a.md".to_vec();
    assert_eq!(admit_file(p.clone(), FileFacts { is_file: true, len: 10 }, 100).unwrap(), p);
    assert!(matches!(admit_file(p.clone(), FileFacts { is_file: false, len: 0 }, 100), Err(LinkError::NotAFile(_))));
    assert!(matches!(
        admit_file(p.clone(), FileFacts { is_file: true, len: 101 }, 100),
        Err(LinkError::TooLarge { limit: 100 })
    ));
    assert_eq!(admit_text(p.clone(), b"# hi\n".to_vec()).unwrap(), "# hi\n");
    assert!(matches!(admit_text(p.clone(), vec![0xff, 0xfe]), Err(LinkError::Binary(_))));
    assert!(matches!(admit_text(p, vec![b'a', 0, b'b']), Err(LinkError::Binary(_))));
}

#[test]
fn markdown_is_recognised_by_extension_in_any_case() {
    assert!(is_markdown_path(b"README.MD"));
    assert!(is_markdown_path(b"dir/notes.markdown"));
    assert!(!is_markdown_path(b".md"));
    assert!(!is_markdown_path(b"notes.mdx"));
    assert!(!is_markdown_path(b"notes"));
}

#[test]
fn an_accepted_url_comes_back_unchanged() {
    assert_eq!(validated_url("HTTPS://example.com/x").unwrap(), "HTTPS://example.com/x");
    assert!(matches!(validated_url("ftp://example.com"), Err(LinkError::UnsupportedScheme(s)) if s == "ftp"));
    assert!(matches!(validated_url("no scheme here"), Err(LinkError::MalformedUrl)));
    assert_eq!(percent_decoded("%+7"), "%+7", "a sign is no hex digit");
    assert_eq!(percent_decoded("a%+4b"), "a%+4b");
    assert_eq!(percent_decoded("%e9"), "%e9", "a decoded byte that is not UTF-8 leaves the path as written");
}

#[test]
fn a_load_failure_on_a_link_target_reads_as_a_link_refusal() {
    let binary = LinkError::from_load(LoadError::InvalidUtf8, b"/d/x.md".to_vec());
    assert!(matches!(&binary, LinkError::Binary(p) if p == b"/d/x.md"));
    assert_eq!(binary.message(), "refusing to open binary content: /d/x.md");
    let large = LinkError::from_load(LoadError::TooLarge { limit: MAX_LINK_FILE_BYTES }, Vec::new());
    assert!(matches!(large, LinkError::TooLarge { limit } if limit == MAX_LINK_FILE_BYTES));
    let io = LinkError::from_load(LoadError::Io("denied".to_string()), Vec::new());
    assert_eq!(io.message(), "could not read linked file: denied");
}

fn index() -> DocumentSource {
    DocumentSource::Path(b"dir/index.md".to_vec())
}

fn a_file(len: u64) -> FileFacts {
    FileFacts { is_file: true, len }
}

/// Follows `href` from `dir/index.md` at `scroll`, answering the look-up
/// with `canonical` and the read with `text`.
fn follow_local(nav: &mut Navigator, href: &str, scroll: usize, canonical: &[u8], text: &str) -> FollowStep {
    let locating = match nav.follow(href, index(), scroll) {
        FollowStep::Locate(l) => l,
        other => panic!("a local link is located first, got {other:?}"),
    };
    let reading = match locating.found(nav, Ok((Some(canonical.to_vec()), a_file(10)))) {
        FollowStep::Read(r) => r,
        other => panic!("an admitted file is read next, got {other:?}"),
    };
    reading.read(nav, Ok(text.to_string()))
}

#[test]
fn a_follow_locates_reads_and_only_then_pushes() {
    let mut nav = Navigator::new();
    let locating = match nav.follow("second.md", index(), 11) {
        FollowStep::Locate(l) => l,
        other => panic!("got {other:?}"),
    };
    assert_eq!(locating.path(), b"dir/second.md");
    assert_eq!(nav.depth(), 0);
    let reading = match locating.found(&nav, Ok((Some(b"/abs/dir/second.md".to_vec()), a_file(10)))) {
        FollowStep::Read(r) => r,
        other => panic!("got {other:?}"),
    };
    assert_eq!(reading.path(), b"/abs/dir/second.md");
    assert_eq!(reading.limit(), MAX_LINK_FILE_BYTES);
    assert_eq!(nav.depth(), 0, "nothing is pushed before the read");
    match reading.read(&mut nav, Ok("# Second".to_string())) {
        FollowStep::Opened { path, text } => {
            assert_eq!(path, b"/abs/dir/second.md".to_vec());
            assert_eq!(text, "# Second");
        }
        other => panic!("got {other:?}"),
    }
    assert_eq!(nav.depth(), 1);
}

#[test]
fn a_refused_follow_leaves_the_history_alone_at_every_step() {
    let mut nav = Navigator::new();
    let missing = match nav.follow("gone.md", index(), 0) {
        FollowStep::Locate(l) => l.found(&nav, Ok((None, FileFacts { is_file: false, len: 0 }))),
        other => panic!("got {other:?}"),
    };
    assert!(matches!(missing, FollowStep::Failed(LinkError::Missing(p)) if p == b"dir/gone.md".to_vec()));
    let not_a_file = match nav.follow("sub", index(), 0) {
        FollowStep::Locate(l) => l.found(&nav, Ok((Some(b"/abs/dir/sub".to_vec()), FileFacts { is_file: false, len: 4096 }))),
        other => panic!("got {other:?}"),
    };
    assert!(matches!(not_a_file, FollowStep::Failed(LinkError::NotAFile(p)) if p == b"/abs/dir/sub".to_vec()));
    let too_large = match nav.follow("big.md", index(), 0) {
        FollowStep::Locate(l) => l.found(&nav, Ok((Some(b"/abs/big.md".to_vec()), a_file(MAX_LINK_FILE_BYTES + 1)))),
        other => panic!("got {other:?}"),
    };
    assert!(matches!(too_large, FollowStep::Failed(LinkError::TooLarge { limit }) if limit == MAX_LINK_FILE_BYTES));
    let at_ceiling = match nav.follow("edge.md", index(), 0) {
        FollowStep::Locate(l) => l.found(&nav, Ok((Some(b"/abs/edge.md".to_vec()), a_file(MAX_LINK_FILE_BYTES)))),
        other => panic!("got {other:?}"),
    };
    assert!(matches!(at_ceiling, FollowStep::Read(_)), "exactly the ceiling still opens");
    let unreadable = match nav.follow("locked.md", index(), 0) {
        FollowStep::Locate(l) => l.found(&nav, Err(LinkError::Io("permission denied".to_string()))),
        other => panic!("got {other:?}"),
    };
    assert!(matches!(unreadable, FollowStep::Failed(LinkError::Io(m)) if m == "permission denied"));
    let binary = match nav.follow("blob.md", index(), 0) {
        FollowStep::Locate(l) => match l.found(&nav, Ok((Some(b"/abs/blob.md".to_vec()), a_file(3)))) {
            FollowStep::Read(r) => r.read(&mut nav, Err(LinkError::Binary(b"/abs/blob.md".to_vec()))),
            other => panic!("got {other:?}"),
        },
        other => panic!("got {other:?}"),
    };
    assert!(matches!(binary, FollowStep::Failed(LinkError::Binary(_))));
    assert!(matches!(nav.follow("#top", index(), 0), FollowStep::Failed(LinkError::Fragment)));
    assert_eq!(nav.depth(), 0);
}

#[test]
fn a_url_follow_hands_exactly_the_checked_url_and_pushes_nothing() {
    let nav = Navigator::new();
    let handing = match nav.follow("  https://example.com/a?b=c  ", index(), 4) {
        FollowStep::Open(h) => h,
        other => panic!("got {other:?}"),
    };
    let mut opener = Recording(Vec::new());
    let outcome = opener.open(handing.url());
    assert!(matches!(handing.handed(outcome), FollowStep::Handed));
    assert_eq!(opener.0, vec!["https://example.com/a?b=c".to_string()]);
    assert_eq!(nav.depth(), 0);
    match nav.follow("https://example.com/x", index(), 4) {
        FollowStep::Open(h) => {
            let failed = h.handed(Err(LinkError::OpenerFailed("xdg-open: not found".to_string())));
            assert!(matches!(failed, FollowStep::Failed(LinkError::OpenerFailed(_))));
        }
        other => panic!("got {other:?}"),
    }
    assert!(matches!(nav.follow("javascript:alert(1)", index(), 0), FollowStep::Failed(LinkError::UnsupportedScheme(s)) if s == "javascript"));
    assert!(matches!(nav.follow("https://example.com/\u{202e}gpj.exe", index(), 0), FollowStep::Failed(LinkError::MalformedUrl)));
}

#[test]
fn a_full_history_refuses_the_next_hop_after_the_look_up() {
    let mut nav = Navigator::new();
    for i in 0..MAX_STACK_DEPTH {
        nav.arrived(DocumentSource::Path(format!("{i}.md").into_bytes()), i).unwrap();
    }
    let refused = match nav.follow("next.md", index(), 0) {
        FollowStep::Locate(l) => l.found(&nav, Ok((Some(b"/abs/next.md".to_vec()), a_file(1)))),
        other => panic!("got {other:?}"),
    };
    assert!(matches!(refused, FollowStep::Failed(LinkError::StackTooDeep { limit }) if limit == MAX_STACK_DEPTH));
    let missing_first = match nav.follow("gone.md", index(), 0) {
        FollowStep::Locate(l) => l.found(&nav, Ok((None, a_file(0)))),
        other => panic!("got {other:?}"),
    };
    assert!(matches!(missing_first, FollowStep::Failed(LinkError::Missing(_))), "the look-up is judged first");
    assert_eq!(nav.depth(), MAX_STACK_DEPTH);
}

#[test]
fn going_back_rereads_the_previous_document_at_its_scroll() {
    let mut nav = Navigator::new();
    assert!(matches!(follow_local(&mut nav, "second.md", 11, b"/abs/dir/second.md", "two"), FollowStep::Opened { .. }));
    let returning = match nav.back() {
        BackStep::Locate(r) => r,
        other => panic!("got {other:?}"),
    };
    assert_eq!(returning.path(), b"./dir/index.md");
    assert_eq!(nav.depth(), 0);
    let rereading = match returning.found(&mut nav, Ok((Some(b"/abs/dir/index.md".to_vec()), a_file(10)))) {
        BackStep::Read(r) => r,
        other => panic!("got {other:?}"),
    };
    assert_eq!(rereading.path(), b"/abs/dir/index.md");
    assert_eq!(rereading.limit(), MAX_DOCUMENT_BYTES, "the first document keeps the command line's ceiling");
    match rereading.read(&mut nav, Ok("# Index".to_string())) {
        BackStep::Reopened { source, scroll, text } => {
            assert_eq!(source, index());
            assert_eq!(scroll, 11);
            assert_eq!(text, "# Index");
        }
        other => panic!("got {other:?}"),
    }
    assert_eq!(nav.depth(), 0);
}

#[test]
fn a_failed_back_keeps_its_entry_at_every_step() {
    let mut nav = Navigator::new();
    follow_local(&mut nav, "second.md", 11, b"/abs/dir/second.md", "two");
    follow_local(&mut nav, "third.md", 3, b"/abs/dir/third.md", "three");
    assert_eq!(nav.depth(), 2);
    let vanished = match nav.back() {
        BackStep::Locate(r) => r.found(&mut nav, Ok((None, a_file(0)))),
        other => panic!("got {other:?}"),
    };
    assert!(matches!(vanished, BackStep::Failed(LinkError::Missing(p)) if p == b"./dir/index.md".to_vec()));
    assert_eq!(nav.depth(), 2);
    let grown = match nav.back() {
        BackStep::Locate(r) => r.found(&mut nav, Ok((Some(b"/abs/dir/index.md".to_vec()), a_file(MAX_LINK_FILE_BYTES + 1)))),
        other => panic!("got {other:?}"),
    };
    assert!(matches!(grown, BackStep::Failed(LinkError::TooLarge { limit }) if limit == MAX_LINK_FILE_BYTES),
        "a linked document is judged by the link ceiling on the way back");
    assert_eq!(nav.depth(), 2);
    let fifo = match nav.back() {
        BackStep::Locate(r) => r.found(&mut nav, Ok((Some(b"/abs/dir/index.md".to_vec()), FileFacts { is_file: false, len: 0 }))),
        other => panic!("got {other:?}"),
    };
    assert!(matches!(fifo, BackStep::Failed(LinkError::NotAFile(_))));
    let binary = match nav.back() {
        BackStep::Locate(r) => match r.found(&mut nav, Ok((Some(b"/abs/dir/index.md".to_vec()), a_file(5)))) {
            BackStep::Read(rr) => rr.read(&mut nav, Err(LinkError::Binary(b"/abs/dir/index.md".to_vec()))),
            other => panic!("got {other:?}"),
        },
        other => panic!("got {other:?}"),
    };
    assert!(matches!(binary, BackStep::Failed(LinkError::Binary(_))));
    let io = match nav.back() {
        BackStep::Locate(r) => r.found(&mut nav, Err(LinkError::Io("gone".to_string()))),
        other => panic!("got {other:?}"),
    };
    assert!(matches!(io, BackStep::Failed(LinkError::Io(_))));
    assert_eq!(nav.depth(), 2);
    match nav.back() {
        BackStep::Locate(r) => match r.found(&mut nav, Ok((Some(b"/abs/dir/index.md".to_vec()), a_file(5)))) {
            BackStep::Read(rr) => match rr.read(&mut nav, Ok("back".to_string())) {
                BackStep::Reopened { scroll, .. } => assert_eq!(scroll, 3),
                other => panic!("got {other:?}"),
            },
            other => panic!("got {other:?}"),
        },
        other => panic!("got {other:?}"),
    }
    assert_eq!(nav.depth(), 1);
}

#[test]
fn going_back_to_stdin_is_refused_and_keeps_the_entry() {
    let mut nav = Navigator::new();
    nav.arrived(DocumentSource::Stdin, 2).unwrap();
    assert!(matches!(nav.back(), BackStep::Failed(LinkError::StreamNotRereadable)));
    assert_eq!(nav.depth(), 1);
}
