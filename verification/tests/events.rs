use nomai_core::error::CoreError;
use nomai_core::event_model::{Event, ListEventsQuery, ListOrder, PurgeQuery};
use nomai_core::events::{get_event, list_events, purge_events};
use nomai_core::ids::{id_text, parse_id, Id};
use nomai_core::time::parse_time;

fn id(s: &str) -> Id {
    parse_id(s).unwrap()
}

fn event(event_id: &str, type_: &str, target_type: &str, target_id: &str) -> Event {
    Event {
        id: id(event_id),
        type_: type_.into(),
        target_type: target_type.into(),
        target_id: id(target_id),
        payload: "{}".into(),
        created_at: parse_time("2026-06-21T12:00:00Z").unwrap(),
    }
}

fn entry_event(event_id: &str, type_: &str) -> Event {
    event(event_id, type_, "entry", "01ARZ3NDEKTSV4RRFFQ69G5FAX")
}

#[test]
fn list_returns_all_events_in_asc_order_by_default() {
    let events = vec![
        entry_event("01ARZ3NDEKTSV4RRFFQ69G5FAV", "entry.created"),
        entry_event("01ARZ3NDEKTSV4RRFFQ69G5FAW", "entry.updated"),
    ];
    let result = list_events(&events, &ListEventsQuery::default());
    assert_eq!(result.items.len(), 2);
    assert!(!result.has_more);
    assert_eq!(id_text(result.items[0].id), "01ARZ3NDEKTSV4RRFFQ69G5FAV");
    assert_eq!(id_text(result.items[1].id), "01ARZ3NDEKTSV4RRFFQ69G5FAW");
}

#[test]
fn list_desc_returns_newest_first() {
    let events = vec![
        entry_event("01ARZ3NDEKTSV4RRFFQ69G5FAV", "t"),
        entry_event("01ARZ3NDEKTSV4RRFFQ69G5FAW", "t"),
    ];
    let q = ListEventsQuery { order: ListOrder::Desc, ..Default::default() };
    let result = list_events(&events, &q);
    assert_eq!(id_text(result.items[0].id), "01ARZ3NDEKTSV4RRFFQ69G5FAW");
}

#[test]
fn list_since_is_exclusive() {
    let events = vec![
        entry_event("01ARZ3NDEKTSV4RRFFQ69G5FAV", "t"),
        entry_event("01ARZ3NDEKTSV4RRFFQ69G5FAW", "t"),
    ];
    let q = ListEventsQuery {
        since: Some(id("01ARZ3NDEKTSV4RRFFQ69G5FAV")),
        ..Default::default()
    };
    let result = list_events(&events, &q);
    // Exclusive: only the second event (id > since).
    assert_eq!(result.items.len(), 1);
    assert_eq!(id_text(result.items[0].id), "01ARZ3NDEKTSV4RRFFQ69G5FAW");
}

#[test]
fn list_filters_by_type() {
    let events = vec![
        entry_event("01ARZ3NDEKTSV4RRFFQ69G5FAV", "entry.created"),
        event("01ARZ3NDEKTSV4RRFFQ69G5FAW", "link.created", "link", "01ARZ3NDEKTSV4RRFFQ69G5FAX"),
    ];
    let q = ListEventsQuery { type_: Some("entry.created".into()), ..Default::default() };
    let result = list_events(&events, &q);
    assert_eq!(result.items.len(), 1);
    assert_eq!(result.items[0].type_, "entry.created");
}

#[test]
fn list_filters_by_target_type_and_target_id() {
    let events = vec![
        event("01ARZ3NDEKTSV4RRFFQ69G5FAV", "t", "entry", "01ARZ3NDEKTSV4RRFFQ69G5FAQ"),
        event("01ARZ3NDEKTSV4RRFFQ69G5FAW", "t", "entry", "01ARZ3NDEKTSV4RRFFQ69G5FAR"),
        event("01ARZ3NDEKTSV4RRFFQ69G5FAX", "t", "link", "01ARZ3NDEKTSV4RRFFQ69G5FAQ"),
    ];
    let q = ListEventsQuery { target_type: Some("link".into()), ..Default::default() };
    let result = list_events(&events, &q);
    assert_eq!(result.items.len(), 1);
    assert_eq!(result.items[0].target_type, "link");
    let q = ListEventsQuery {
        target_id: Some(id("01ARZ3NDEKTSV4RRFFQ69G5FAR")),
        ..Default::default()
    };
    assert_eq!(list_events(&events, &q).items.len(), 1);
}

#[test]
fn list_has_more_when_more_than_limit() {
    let events: Vec<Event> = (0..5)
        .map(|i| entry_event(&format!("01ARZ3NDEKTSV4RRFFQ69G5FA{i}"), "t"))
        .collect();
    let result = list_events(&events, &ListEventsQuery { limit: 3, ..Default::default() });
    assert_eq!(result.items.len(), 3);
    assert!(result.has_more);
    // Fetch next page using since=last item id.
    let next_since = result.items[2].id;
    let q = ListEventsQuery { since: Some(next_since), limit: 3, ..Default::default() };
    let result2 = list_events(&events, &q);
    assert_eq!(result2.items.len(), 2);
    assert!(!result2.has_more);
}

#[test]
fn list_returns_empty_when_no_events() {
    let result = list_events(&Vec::new(), &ListEventsQuery::default());
    assert!(result.items.is_empty());
    assert!(!result.has_more);
}

#[test]
fn get_returns_event_by_id() {
    let events = vec![entry_event("01ARZ3NDEKTSV4RRFFQ69G5FAV", "entry.created")];
    let event = get_event(&events, id("01ARZ3NDEKTSV4RRFFQ69G5FAV")).unwrap();
    assert_eq!(event.type_, "entry.created");
    assert_eq!(event.target_type, "entry");
}

#[test]
fn event_service_get_returns_not_found_for_unknown_id() {
    let err = get_event(&Vec::new(), id("01ARZ3NDEKTSV4RRFFQ69G5FAV")).unwrap_err();
    assert!(matches!(err, CoreError::NotFound(_)));
}

#[test]
fn purge_deletes_events_before_cursor() {
    let events: Vec<Event> = (0..3)
        .map(|i| entry_event(&format!("01ARZ3NDEKTSV4RRFFQ69G5FA{i}"), "t"))
        .collect();
    // before is exclusive: deletes id < before.
    let q = PurgeQuery { before: id("01ARZ3NDEKTSV4RRFFQ69G5FA2"), type_: None };
    let (remaining, deleted) = purge_events(events, &q);
    assert_eq!(deleted, 2);
    assert_eq!(remaining.len(), 1);
    assert_eq!(id_text(remaining[0].id), "01ARZ3NDEKTSV4RRFFQ69G5FA2");
}

#[test]
fn purge_filters_by_type() {
    let events = vec![
        entry_event("01ARZ3NDEKTSV4RRFFQ69G5FA0", "entry.created"),
        event("01ARZ3NDEKTSV4RRFFQ69G5FA1", "link.created", "link", "01ARZ3NDEKTSV4RRFFQ69G5FAX"),
        entry_event("01ARZ3NDEKTSV4RRFFQ69G5FA2", "entry.created"),
    ];
    let q = PurgeQuery {
        before: id("01ARZ3NDEKTSV4RRFFQ69G5FAZ"),
        type_: Some("entry.created".into()),
    };
    let (remaining, deleted) = purge_events(events, &q);
    assert_eq!(deleted, 2);
    assert_eq!(remaining.len(), 1);
    assert_eq!(remaining[0].type_, "link.created");
}

#[test]
fn purge_returns_zero_when_nothing_matches() {
    let q = PurgeQuery { before: id("01ARZ3NDEKTSV4RRFFQ69G5FAV"), type_: None };
    let (_, deleted) = purge_events(Vec::new(), &q);
    assert_eq!(deleted, 0);
}
