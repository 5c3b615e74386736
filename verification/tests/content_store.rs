use nomai_core::attrs::Attrs;
use nomai_core::content_store::{
    attachment_not_found, entry_dir, list_attachments, sanitize_attachment_filename,
    scan_entry_ids, temporary_name, DirItem,
};
use nomai_core::entries::entry_path;
use nomai_core::error::CoreError;
use nomai_core::ids::parse_id;
use nomai_core::nomai_format::{parse, render, Block, BlockType, NomaiDoc, ParseError};
use nomai_core::time::{parse_time, Timestamp};

fn sample_doc() -> NomaiDoc {
    NomaiDoc {
        format_version: 1,
        id: parse_id("01ARZ3NDEKTSV4RRFFQ69G5FAV").unwrap(),
        title: "Test".into(),
        tags: vec![],
        attrs: Attrs::new(),
        source: None,
        created_at: parse_time("2026-06-23T10:00:00Z").unwrap(),
        updated_at: parse_time("2026-06-23T10:00:00Z").unwrap(),
        blocks: vec![Block {
            type_: BlockType::Note,
            text: "Hello.\n".into(),
            attrs: Attrs::new(),
        }],
    }
}

fn file(name: &str, size: u64) -> DirItem {
    DirItem {
        name: Some(name.into()),
        is_dir: false,
        is_file: true,
        size,
        modified: Timestamp { seconds: 1, nanos: 0 },
    }
}

fn dir(name: &str) -> DirItem {
    DirItem { is_dir: true, is_file: false, ..file(name, 0) }
}

#[test]
fn entry_dir_resolves_under_root() {
    let id = parse_id("01ARZ3NDEKTSV4RRFFQ69G5FAV").unwrap();
    assert_eq!(
        format!("/tmp/nomai-test/{}", entry_dir(id)),
        "/tmp/nomai-test/entries/01ARZ3NDEKTSV4RRFFQ69G5FAV"
    );
    assert_eq!(
        format!("/tmp/nomai-test/{}", entry_path(id)),
        "/tmp/nomai-test/entries/01ARZ3NDEKTSV4RRFFQ69G5FAV/entry.nomai"
    );
}

#[test]
fn write_entry_creates_nomai_file() {
    let content = render(&sample_doc());
    assert!(content.contains("#format_version 1"));
    assert!(content.contains("#title Test"));
    assert!(content.contains("@note"));
    assert!(content.contains("Hello."));
}

#[test]
fn write_entry_round_trips_through_read() {
    let doc = sample_doc();
    let read = parse(&render(&doc)).unwrap();
    assert_eq!(format!("{read:?}"), format!("{doc:?}"));
}

#[test]
fn read_entry_errors_on_malformed_content() {
    let err: CoreError = parse("not a valid nomai file").unwrap_err().into();
    assert!(matches!(err, CoreError::NomaiFormat(ParseError::Syntax { line: 1, .. })));
}

#[test]
fn scan_entry_ids_returns_all_written_entries() {
    let id1 = parse_id("01ARZ3NDEKTSV4RRFFQ69G5FAV").unwrap();
    let id2 = parse_id("01ARZ3NDEKTSV4RRFFQ69G5FAX").unwrap();
    let items = vec![dir("01ARZ3NDEKTSV4RRFFQ69G5FAV"), dir("01ARZ3NDEKTSV4RRFFQ69G5FAX")];
    let mut ids = scan_entry_ids(&items);
    ids.sort();
    assert_eq!(ids, vec![id1, id2]);
}

#[test]
fn scan_entry_ids_skips_invalid_dir_names() {
    let id = parse_id("01ARZ3NDEKTSV4RRFFQ69G5FAV").unwrap();
    let items = vec![
        dir("01ARZ3NDEKTSV4RRFFQ69G5FAV"),
        dir("not-a-ulid"),
        DirItem { name: None, ..dir("") },
    ];
    let ids = scan_entry_ids(&items);
    assert_eq!(ids, vec![id]); // junk dir skipped
}

#[test]
fn list_attachments_excludes_nomai_and_sorts() {
    let items = vec![
        file("zebra.png", 1),
        file("entry.nomai", 10),
        file("alpha.pdf", 1),
        dir("folder"),
    ];
    let list = list_attachments(&items);
    let names: Vec<&str> = list.iter().map(|m| m.filename.as_str()).collect();
    assert_eq!(names, vec!["alpha.pdf", "zebra.png"], "sorted, no entry.nomai");
    assert!(list.iter().all(|m| m.size >= 1));
}

#[test]
fn list_attachments_missing_entry_dir_is_empty_not_error() {
    assert!(list_attachments(&Vec::new()).is_empty());
}

#[test]
fn attachment_filename_traversal_rejected() {
    for bad in [
        "../evil",
        "/etc/passwd",
        "~/secret",
        "a/b",
        "a\\b",
        ".",
        "..",
        "",
        "a:b",
    ] {
        let err = sanitize_attachment_filename(bad).unwrap_err();
        assert!(
            matches!(err, CoreError::Validation(ref m) if m.contains("unsafe attachment filename")),
            "expected Validation for {bad:?}, got {err:?}"
        );
    }
    assert_eq!(sanitize_attachment_filename("sunset.png").unwrap(), "sunset.png");
}

#[test]
fn attachment_read_missing_file_is_validation_not_found() {
    let err = attachment_not_found("nope.png");
    assert!(
        matches!(err, CoreError::Validation(ref m) if m.contains("attachment not found")),
        "expected Validation('attachment not found'), got {err:?}"
    );
}

#[test]
fn a_file_is_written_beside_its_place_first() {
    assert_eq!(temporary_name("entry.nomai"), "entry.nomai.tmp");
}
