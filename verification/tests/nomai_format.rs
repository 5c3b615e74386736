use nomai_core::attrs::{AttrValue, Attrs, AttrsValue};
use nomai_core::block_model;
use nomai_core::escaping::{escape_text, join_lines, split_lines, unescape_chars};
use nomai_core::ids::parse_id;
use nomai_core::model::Entry;
use nomai_core::nomai_format::{parse, render, Block, BlockType, NomaiDoc, ParseError};
use nomai_core::nomai_format_util::{document_of_entry, storage_block_to_parser_block};
use nomai_core::time::{parse_time, Timestamp};

fn now() -> Timestamp {
    parse_time("2026-06-23T10:00:00Z").unwrap()
}

fn attrs(members: &[(&str, &str)]) -> Attrs {
    let mut out = Attrs::new();
    for (k, v) in members {
        out.set(k.to_string(), AttrValue::Text(v.to_string()));
    }
    out
}

fn pairs(a: &Attrs) -> Vec<(String, String)> {
    a.members.iter().map(|(k, v)| (k.clone(), v.as_text().to_string())).collect()
}

fn doc() -> NomaiDoc {
    NomaiDoc {
        format_version: 1,
        id: parse_id("01ARZ3NDEKTSV4RRFFQ69G5FAV").unwrap(),
        title: "Orbits".into(),
        tags: vec!["space".into(), "a,b c".into()],
        attrs: attrs(&[("mood", "calm = still"), ("two words", "x")]),
        source: Some("https://example.org".into()),
        created_at: now(),
        updated_at: now(),
        blocks: vec![
            Block {
                type_: BlockType::Claim,
                text: "Earth orbits the sun.\n@not a block\n\\back\n".into(),
                attrs: attrs(&[("confidence", "high")]),
            },
            Block {
                type_: BlockType::Connection,
                text: "".into(),
                attrs: attrs(&[("target", "X"), ("relation", "supports")]),
            },
        ],
    }
}

fn stored(type_: &str, attrs: AttrsValue) -> block_model::Block {
    block_model::Block {
        id: parse_id("01ARZ3NDEKTSV4RRFFQ69G5FAV").unwrap(),
        entry_id: parse_id("01ARZ3NDEKTSV4RRFFQ69G5FAX").unwrap(),
        ordinal: 0,
        type_: type_.into(),
        text: "x".into(),
        attrs,
        created_at: now(),
        updated_at: now(),
    }
}

#[test]
fn block_type_round_trip() {
    for s in ["claim", "evidence", "question", "source", "note", "connection"] {
        let ty = BlockType::from_str(s).unwrap();
        assert_eq!(ty.as_str(), s);
    }
}

#[test]
fn block_type_unknown_returns_none() {
    assert!(BlockType::from_str("definition").is_none());
}

#[test]
fn image_is_a_block_type() {
    assert_eq!(BlockType::from_str("image"), Some(BlockType::Image));
}

#[test]
fn storage_to_parser_round_trip_type() {
    let p = storage_block_to_parser_block(&stored("claim", AttrsValue::Object(Attrs::new())));
    assert_eq!(p.type_, BlockType::Claim);
    assert_eq!(p.text, "x");
}

#[test]
fn unknown_storage_type_falls_back_to_note() {
    // not in the closed set of types
    let p = storage_block_to_parser_block(&stored("definition", AttrsValue::Object(Attrs::new())));
    assert_eq!(p.type_, BlockType::Note); // fallback
}

#[test]
fn storage_attrs_non_object_falls_back_to_empty_map() {
    // array, not object
    let p = storage_block_to_parser_block(&stored("note", AttrsValue::Other("[1,2,3]".into())));
    assert!(p.attrs.members.is_empty());
}

#[test]
fn a_document_comes_back_from_its_text() {
    let d = doc();
    let text = render(&d);
    assert!(text.contains("@claim confidence=high"));
    let back = parse(&text).unwrap();
    assert_eq!(back.format_version, 1);
    assert_eq!(back.id, d.id);
    assert_eq!(back.title, d.title);
    assert_eq!(back.tags, d.tags);
    assert_eq!(pairs(&back.attrs), pairs(&d.attrs));
    assert_eq!(back.source, d.source);
    assert_eq!(back.created_at, d.created_at);
    assert_eq!(back.updated_at, d.updated_at);
    assert_eq!(back.blocks.len(), 2);
    for (a, b) in back.blocks.iter().zip(d.blocks.iter()) {
        assert_eq!(a.type_, b.type_);
        assert_eq!(a.text, b.text);
        assert_eq!(pairs(&a.attrs), pairs(&b.attrs));
    }
}

#[test]
fn values_that_are_not_strings_come_back_as_strings() {
    let mut d = doc();
    d.attrs.set("count".into(), AttrValue::Json("3".into()));
    let back = parse(&render(&d)).unwrap();
    assert!(matches!(back.attrs.get("count"), Some(AttrValue::Text(s)) if s == "3"));
}

#[test]
fn each_defect_of_a_file_is_named() {
    assert!(matches!(parse(""), Err(ParseError::EmptyInput)));
    let text = render(&doc());
    let without_id: Vec<&str> = text.lines().filter(|l| !l.starts_with("#id ")).collect();
    assert!(matches!(
        parse(&without_id.join("\n")),
        Err(ParseError::MissingHeader { key: "id", .. })
    ));
    assert!(matches!(
        parse(&text.replace("#format_version 1", "#format_version 2")),
        Err(ParseError::UnsupportedVersion { version, .. }) if version == "2"
    ));
    assert!(matches!(
        parse(&text.replace("@claim", "@definition")),
        Err(ParseError::UnknownBlockType { ty, .. }) if ty == "definition"
    ));
    assert!(matches!(
        parse(&text.replace("target=X ", "")),
        Err(ParseError::MissingConnectionAttr { attr: "target", .. })
    ));
    assert!(matches!(
        parse(&text.replace("01ARZ3NDEKTSV4RRFFQ69G5FAV", "nothing")),
        Err(ParseError::InvalidValue { field: "id", .. })
    ));
    assert!(matches!(
        parse(&text.replace("#title Orbits", "#title Or\\bits")),
        Err(ParseError::Syntax { .. })
    ));
}

#[test]
fn escapes_come_back() {
    for s in ["", "plain", "a\\b", "two\nlines", "x=y, z w"] {
        for strict in [false, true] {
            let written = escape_text(s, strict);
            assert!(!written.contains('\n'));
            let chars: Vec<char> = written.chars().collect();
            assert_eq!(unescape_chars(&chars, 0, chars.len()), Some(s.to_string()));
        }
    }
    assert_eq!(escape_text("a b", true), "a\\sb");
    assert_eq!(unescape_chars(&vec!['\\', 'q'], 0, 2), None);
}

#[test]
fn lines_come_back_from_their_text() {
    let lines: Vec<String> = vec!["a".into(), "".into(), "b".into()];
    let text = join_lines(&lines);
    assert_eq!(split_lines(&text), lines);
}

#[test]
fn the_document_of_an_entry_holds_what_is_stored() {
    let entry = Entry {
        id: parse_id("01ARZ3NDEKTSV4RRFFQ69G5FAX").unwrap(),
        title: "t".into(),
        tags: vec!["a".into()],
        attrs: AttrsValue::Object(attrs(&[("k", "v")])),
        source: None,
        created_at: now(),
        updated_at: now(),
        blocks: vec![stored("claim", AttrsValue::Object(Attrs::new()))],
    };
    let d = document_of_entry(&entry);
    assert_eq!(d.format_version, 1);
    assert_eq!(d.title, "t");
    assert_eq!(pairs(&d.attrs), vec![("k".to_string(), "v".to_string())]);
    assert_eq!(d.blocks.len(), 1);
    assert_eq!(d.blocks[0].type_, BlockType::Claim);
}
