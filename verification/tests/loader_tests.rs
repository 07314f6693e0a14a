use stele::loader::{
    document_text, file_info, read_budget, read_bounded, DocumentSource, LoadError, LoadOptions,
    MAX_DOCUMENT_BYTES,
};

#[test]
fn test_base_dir_is_the_documents_directory_and_never_empty() {
    assert_eq!(DocumentSource::Path(b"/tmp/notes/a.md".to_vec()).base_dir(), b"/tmp/notes".to_vec());
    assert_eq!(DocumentSource::Path(b"a.md".to_vec()).base_dir(), b".".to_vec());
}

#[test]
fn a_stdin_source_names_itself_and_resolves_against_the_working_directory() {
    let source = DocumentSource::Stdin;
    assert_eq!(source.display_name(), "(stdin)");
    assert_eq!(source.base_dir(), b".".to_vec());
    assert_eq!(DocumentSource::Path(b"/tmp/caf\xff.md".to_vec()).display_name(), "/tmp/caf\u{fffd}.md");
}

#[test]
fn the_ceiling_is_exact() {
    assert!(read_bounded(vec![0u8; 10], 10).is_ok());
    assert!(matches!(read_bounded(vec![0u8; 11], 10), Err(LoadError::TooLarge { limit: 10 })));
    assert_eq!(read_budget(10), 11);
    assert_eq!(read_budget(u64::MAX), u64::MAX);
}

#[test]
fn load_errors_read_as_prose() {
    let message = LoadError::TooLarge { limit: MAX_DOCUMENT_BYTES }.message();
    assert!(message.contains("64 MiB"), "message was: {message}");
    assert_eq!(message, "document is larger than the 64 MiB stele will read");
    assert_eq!(LoadError::InvalidUtf8.message(), "file is not valid UTF-8");
    assert_eq!(LoadError::Io("No such file".to_string()).message(), "could not read file: No such file");
}

#[test]
fn the_default_policy_fetches_nothing() {
    let options = LoadOptions::default();
    assert!(!options.show_frontmatter);
    assert!(options.rewrite_source);
    assert!(!options.fetch_remote);
}

#[test]
fn test_dw_5_4_invalid_utf8_produces_clean_error() {
    let err = document_text(vec![0x48, 0x65, 0x6c, 0x6c, 0x6f, 0xff, 0xfe], MAX_DOCUMENT_BYTES).unwrap_err();
    assert!(matches!(err, LoadError::InvalidUtf8));
    assert_eq!(err.message(), "file is not valid UTF-8");
}

#[test]
fn test_a_valid_file_loads_with_its_raw_size_and_line_count() {
    let text = document_text(b"# Hello\n\nWorld.\n".to_vec(), MAX_DOCUMENT_BYTES).unwrap();
    let info = file_info(&text, "/tmp/stele-valid.md".to_string());
    assert_eq!(info.byte_size, 16);
    assert_eq!(info.line_count, 3);
    assert_eq!(info.name, "/tmp/stele-valid.md");
}

#[test]
fn test_an_empty_file_loads_as_an_empty_document() {
    let text = document_text(Vec::new(), MAX_DOCUMENT_BYTES).unwrap();
    let info = file_info(&text, "empty.md".to_string());
    assert_eq!(info.byte_size, 0);
    assert_eq!(info.line_count, 0);
}

#[test]
fn test_a_document_past_the_size_ceiling_is_refused_by_the_barricade() {
    let err = document_text(vec![b'a'; MAX_DOCUMENT_BYTES as usize + 1], MAX_DOCUMENT_BYTES).unwrap_err();
    assert!(matches!(err, LoadError::TooLarge { limit } if limit == MAX_DOCUMENT_BYTES));
    let message = err.message();
    assert!(message.contains("64 MiB"), "message was: {message}");
    assert!(!message.contains("Os {"), "message was: {message}");
}

#[test]
fn test_a_document_exactly_at_the_size_ceiling_still_loads() {
    let loaded = document_text(vec![0u8; MAX_DOCUMENT_BYTES as usize], MAX_DOCUMENT_BYTES);
    assert!(loaded.is_ok(), "exactly at the limit must be accepted");
}

#[test]
fn test_dw_2_1_stdin_source_names_itself_and_reports_no_change() {
    let source = DocumentSource::Stdin;
    assert_eq!(source.display_name(), "(stdin)");
    assert!(!source.changed(None, None));
    assert!(!source.changed(Some(2), Some(1)));
    assert_eq!(source.base_dir(), b".".to_vec());
}

#[test]
fn test_dw_2_4_a_missing_path_reports_changed_so_the_failure_is_seen() {
    let source = DocumentSource::Path(b"/nonexistent/vanished.md".to_vec());
    assert!(source.changed(None, Some(1_000)));
}

#[test]
fn a_file_is_changed_only_when_written_after_the_load() {
    let source = DocumentSource::Path(b"notes.md".to_vec());
    assert!(!source.changed(Some(1_000), Some(1_000)));
    assert!(!source.changed(Some(999), Some(1_000)));
    assert!(source.changed(Some(1_001), Some(1_000)));
    assert!(source.changed(Some(1_001), None));
}

#[test]
fn a_trailing_newline_adds_no_line_and_crlf_counts_once() {
    assert_eq!(file_info("a\nb", String::new()).line_count, 2);
    assert_eq!(file_info("a\nb\n", String::new()).line_count, 2);
    assert_eq!(file_info("a\r\nb\r\n", String::new()).line_count, 2);
    assert_eq!(file_info("\n", String::new()).line_count, 1);
    assert_eq!(file_info("\n\n", String::new()).line_count, 2);
    assert_eq!(file_info("caf\u{e9}", String::new()).byte_size, 5);
}

#[test]
fn bytes_past_the_ceiling_are_refused_before_their_encoding_is_judged() {
    assert!(matches!(document_text(vec![0xff; 4], 3), Err(LoadError::TooLarge { limit: 3 })));
    assert!(matches!(document_text(vec![0xff; 3], 3), Err(LoadError::InvalidUtf8)));
    assert_eq!(document_text("h\u{e9}".as_bytes().to_vec(), 3).unwrap(), "h\u{e9}");
}
