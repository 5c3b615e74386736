use nomai_core::error::CoreError;
use nomai_core::ids::parse_id;
use nomai_core::nomai_format::ParseError;

#[test]
fn not_found_displays_ulid() {
    let id = parse_id("01ARZ3NDEKTSV4RRFFQ69G5FAV").unwrap();
    let err = CoreError::NotFound(id);
    assert_eq!(err.to_text(), "entry not found: 01ARZ3NDEKTSV4RRFFQ69G5FAV");
}

#[test]
fn resource_not_found_displays_resource_and_ulid() {
    let id = parse_id("01ARZ3NDEKTSV4RRFFQ69G5FAV").unwrap();
    let err = CoreError::ResourceNotFound { resource: "search session", id };
    assert_eq!(err.to_text(), "search session not found: 01ARZ3NDEKTSV4RRFFQ69G5FAV");
}

#[test]
fn conflict_displays_message() {
    let err = CoreError::Conflict("search session expired".into());
    assert_eq!(err.to_text(), "conflict: search session expired");
}

#[test]
fn validation_carries_message() {
    let err = CoreError::Validation("attrs must be a JSON object".into());
    assert!(err.to_text().contains("attrs must be a JSON object"));
}

#[test]
fn nomai_format_variant_via_from() {
    let parse_err = ParseError::EmptyInput;
    let core: CoreError = parse_err.into();
    assert!(matches!(core, CoreError::NomaiFormat(_)));
    assert!(core.to_text().contains("empty input"));
}

#[test]
fn every_other_error_says_where_it_comes_from() {
    assert_eq!(CoreError::Validation("m".into()).to_text(), "validation error: m");
    assert_eq!(CoreError::Provider("bad key".into()).to_text(), "provider error: bad key");
    assert_eq!(CoreError::Storage("m".into()).to_text(), "storage error: m");
    assert_eq!(CoreError::Migration("m".into()).to_text(), "migration error: m");
    assert_eq!(CoreError::Io("missing".into()).to_text(), "io error: missing");
    assert_eq!(CoreError::Config("m".into()).to_text(), "config error: m");
    let conflict = CoreError::SyncConflict {
        message: "m".into(),
        conflicted_files: vec!["a".into()],
    };
    assert_eq!(conflict.to_text(), "sync conflict: m");
    assert_eq!(
        CoreError::NomaiFormat(ParseError::EmptyInput).to_text(),
        "nomai format error: empty input"
    );
}

#[test]
fn parse_errors_name_their_line() {
    let e = ParseError::MissingHeader { line: 3, key: "id" };
    assert_eq!(e.to_text(), "line 3: missing required header key: id");
    let e = ParseError::UnsupportedVersion { line: 1, version: "2".into() };
    assert_eq!(e.to_text(), "line 1: unsupported format_version: 2 (only 1 supported)");
    let e = ParseError::UnknownBlockType { line: 9, ty: "definition".into() };
    assert_eq!(e.to_text(), "line 9: unknown block type: definition");
    let e = ParseError::MissingConnectionAttr { line: 12, attr: "target" };
    assert_eq!(e.to_text(), "line 12: @connection missing required attr: target");
    let e = ParseError::InvalidValue { line: 2, field: "id", reason: "bad".into() };
    assert_eq!(e.to_text(), "line 2: invalid value for id: bad");
    let e = ParseError::Syntax { line: 4, reason: "bad".into() };
    assert_eq!(e.to_text(), "line 4: syntax error: bad");
}
