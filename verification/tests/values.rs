use nomai_core::conversation_model::{ConversationListOrder, ConversationListQuery};
use nomai_core::entry_model::{EntryListOrder, EntryListQuery};
use nomai_core::event_model::{ListEventsQuery, ListOrder};
use nomai_core::hashing::{normalize_query, query_hash, single_spaced};
use nomai_core::ids::{id_text, parse_id};
use nomai_core::time::{parse_time, time_text, Timestamp};

#[test]
fn conversation_list_order_default_is_created_desc() {
    let q = ConversationListQuery::default();
    assert_eq!(q.order, ConversationListOrder::CreatedDesc);
    assert_eq!(q.limit, 50);
}

#[test]
fn list_events_query_defaults() {
    let q = ListEventsQuery::default();
    assert!(q.since.is_none());
    assert_eq!(q.limit, 100);
    assert_eq!(q.order, ListOrder::Asc);
}

#[test]
fn entries_are_listed_newest_first_by_default() {
    let q = EntryListQuery::default();
    assert_eq!(q.order, EntryListOrder::CreatedDesc);
    assert_eq!(q.limit, 50);
    assert_eq!(q.offset, 0);
}

#[test]
fn an_identifier_comes_back_from_its_text() {
    let text = "01ARZ3NDEKTSV4RRFFQ69G5FAV";
    let id = parse_id(text).unwrap();
    assert_eq!(id_text(id), text);
    assert_eq!(id, ulid::Ulid::from_string(text).unwrap().0);
    assert_eq!(parse_id("not an id"), None);
}

#[test]
fn a_time_comes_back_from_its_text() {
    let t = parse_time("2026-06-23T10:00:00.5+02:00").unwrap();
    assert_eq!(t, Timestamp { seconds: 1782201600, nanos: 500_000_000 });
    assert_eq!(parse_time(&time_text(t)), Some(t));
    assert_eq!(time_text(Timestamp { seconds: 0, nanos: 0 }), "1970-01-01T00:00:00+00:00");
    assert_eq!(parse_time("yesterday"), None);
    let first = time_text(Timestamp { seconds: -8334601228800, nanos: 0 });
    assert_eq!(first, "-262143-01-01T00:00:00+00:00");
    let last = time_text(Timestamp { seconds: 8210266876799, nanos: 0 });
    assert_eq!(last, "+262142-12-31T23:59:59+00:00");
}

#[test]
fn later_and_earlier_times() {
    let a = Timestamp { seconds: 1, nanos: 0 };
    let b = Timestamp { seconds: 1, nanos: 1 };
    assert!(a.is_before(&b) && !b.is_before(&a));
    assert_eq!(a.max_of(b), b);
    assert_eq!(a.min_of(b), a);
}

#[test]
fn a_query_is_hashed_by_its_normal_form() {
    assert_eq!(normalize_query("  Agent\t MEMORY  "), "agent memory");
    assert_eq!(single_spaced("a  b", &vec![true, false, false, true]), "a b");
    let expected = blake3::hash("agent memory".as_bytes()).to_hex().to_string();
    assert_eq!(query_hash("  Agent\t MEMORY  "), expected);
    assert_eq!(query_hash("agent memory"), expected);
    assert_ne!(query_hash("agent memories"), expected);
}
