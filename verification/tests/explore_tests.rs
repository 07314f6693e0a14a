use stele::explore::{
    absolute_dir, overlay_window, row_text, sort_by_name, Entry, EntryKind, FileId, Listing, NameEquivalence, RowStyle,
};
use stele::path::{lexical, parent_dir};

#[test]
fn test_overlay_window_arithmetic() {
    let notice = || Some("notice".to_string());

    let window = overlay_window(1, 10, 0, notice());
    assert_eq!(window.rows.len(), 1);
    assert!(window.start == window.end, "{:?}", (window.start, window.end));

    let window = overlay_window(10, 0, 0, notice());
    assert_eq!(window.rows.len(), 1);
    assert!(window.start == window.end);

    let window = overlay_window(6, 20, 10, None);
    assert_eq!((window.start, window.end), (7, 13), "the cursor must sit mid-window");
    assert_eq!(window.selected, 10);

    let window = overlay_window(4, 3, 99, None);
    assert_eq!(window.selected, 2);
    assert_eq!((window.start, window.end), (0, 3));

    assert!(overlay_window(0, 5, 0, notice()).rows.is_empty());

    let window = overlay_window(4, 10, 9, None);
    assert_eq!((window.start, window.end), (6, 10));
}

fn child(name: &str, kind: EntryKind, ino: u64) -> (Entry, Option<FileId>) {
    (
        Entry { name: name.as_bytes().to_vec(), path: format!("/d/{name}").into_bytes(), kind },
        Some(FileId { dev: 1, ino }),
    )
}

#[test]
fn a_read_lists_the_parent_first_then_children_in_byte_order() {
    let children = vec![
        child("b.md", EntryKind::Document, 2),
        child("B.md", EntryKind::Document, 3),
        child("a", EntryKind::Directory, 4),
    ];
    let listing = Listing::read(b"/d".to_vec(), Some(FileId { dev: 1, ino: 1 }), children, false, 0, None);
    let names: Vec<&[u8]> = listing.entries().iter().map(|e| e.name.as_slice()).collect();
    assert_eq!(names, vec![b"..".as_slice(), b"B.md", b"a", b"b.md"]);
    assert_eq!(listing.entries()[0].path, b"/".to_vec());
    assert_eq!(listing.identity(0), None);
    assert_eq!(listing.identity(1), Some(FileId { dev: 1, ino: 3 }));
    assert_eq!(listing.identity(3), Some(FileId { dev: 1, ino: 2 }));
    assert_eq!(listing.dir_identity(), Some(FileId { dev: 1, ino: 1 }));
    assert_eq!(listing.equivalence(), NameEquivalence::Folded, "undecided folds");
    assert_eq!(listing.parent(), Some(b"/".as_slice()));
}

#[test]
fn the_root_has_no_parent_row() {
    let listing = Listing::read(b"/".to_vec(), None, vec![child("etc", EntryKind::Directory, 9)], false, 0, None);
    assert_eq!(listing.entries().len(), 1);
    assert_eq!(listing.parent(), None);
}

#[test]
fn an_unreadable_directory_says_so() {
    let listing = Listing::read(b"/d".to_vec(), None, Vec::new(), false, 0, Some("Permission denied".to_string()));
    assert_eq!(listing.notice().as_deref(), Some("cannot read directory: Permission denied"));
    assert_eq!(listing.entries().len(), 1);
}

#[test]
fn a_capped_read_with_drops_names_both() {
    let listing = Listing::read(b"/d".to_vec(), None, vec![child("a", EntryKind::Document, 1)], true, 2, None);
    assert_eq!(
        listing.notice().as_deref(),
        Some("listing capped at 256 entries: some names are missing; 2 entries could not be read")
    );
}

#[test]
fn sorting_keeps_every_entry() {
    let sorted = sort_by_name(vec![child("c", EntryKind::Document, 1), child("a", EntryKind::Document, 2), child("b", EntryKind::Document, 3)]);
    let names: Vec<Vec<u8>> = sorted.into_iter().map(|(e, _)| e.name).collect();
    assert_eq!(names, vec![b"a".to_vec(), b"b".to_vec(), b"c".to_vec()]);
}

#[test]
fn unopenable_rows_are_never_selected() {
    let entries = vec![
        Entry { name: b"fifo".to_vec(), path: b"/d/fifo".to_vec(), kind: EntryKind::Unopenable },
        Entry { name: b"x.md".to_vec(), path: b"/d/x.md".to_vec(), kind: EntryKind::Document },
    ];
    let listing = Listing::from_entries(b"/d".to_vec(), entries, false);
    assert_eq!(listing.first_selectable(), Some(1));
    assert_eq!(listing.prev_selectable(1), None);
    assert_eq!(listing.seat(Some(b"fifo")), 1);
    let rows = listing.rows(5, 0);
    assert_eq!(rows[0].style, RowStyle::Dimmed);
    assert_eq!(rows[1].style, RowStyle::Ordinary);
}

#[test]
fn a_directory_row_ends_in_a_slash() {
    let e = Entry { name: b"src".to_vec(), path: b"/d/src".to_vec(), kind: EntryKind::Directory };
    assert_eq!(row_text(&e), "src/");
}

#[test]
fn parent_dir_is_lexical_and_stops_at_the_root() {
    assert_eq!(parent_dir(b"/tmp/notes"), Some(b"/tmp".to_vec()));
    assert_eq!(parent_dir(b"/"), None);
    assert_eq!(lexical(b"a/./b/../c"), b"a/c".to_vec());
    assert_eq!(lexical(b"/.."), b"/".to_vec());
}

#[test]
fn sorting_by_name_keeps_equal_names_in_the_order_they_came() {
    let sorted = sort_by_name(vec![
        child("z", EntryKind::Document, 1),
        child("same", EntryKind::Document, 2),
        child("a", EntryKind::Document, 3),
        child("same", EntryKind::Directory, 4),
    ]);
    let inos: Vec<u64> = sorted.iter().map(|(_, id)| id.unwrap().ino).collect();
    assert_eq!(inos, vec![3, 2, 4, 1]);
}

#[test]
fn test_absolute_dir_joins_and_normalises_lexically() {
    assert_eq!(absolute_dir(Some(b"/home/u"), b"docs/../notes/./x"), b"/home/u/notes/x".to_vec());
    assert_eq!(absolute_dir(Some(b"/home/u"), b"/etc/../srv"), b"/srv".to_vec());
    assert_eq!(absolute_dir(Some(b"/home/u"), b".."), b"/home".to_vec());
    assert_eq!(absolute_dir(Some(b"/"), b"../.."), b"/".to_vec());
    assert_eq!(absolute_dir(None, b"a/./b/../c"), b"a/c".to_vec());
    assert_eq!(absolute_dir(None, b"."), b".".to_vec());
}
