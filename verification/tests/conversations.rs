use nomai_core::attrs::{AttrValue, Attrs, AttrsValue};
use nomai_core::conversation_model::{
    AppendTurns, Conversation, ConversationListQuery, ConversationWithTurns, CreateConversation,
    CreateTurn, Turn, UpdateConversation,
};
use nomai_core::conversations::{
    append_turns, create_conversation, delete_conversation, get_conversation, list_conversations,
    search_result, update_conversation, ConversationDb,
};
use nomai_core::error::CoreError;
use nomai_core::fulltext::{pattern_for, uses_index};
use nomai_core::ids::{parse_id, Id};
use nomai_core::time::Timestamp;

struct Chats {
    db: ConversationDb,
    next: Id,
    events: Vec<&'static str>,
}

impl Chats {
    fn new() -> Chats {
        Chats {
            db: ConversationDb { conversations: Vec::new(), turns: Vec::new() },
            next: 0,
            events: Vec::new(),
        }
    }

    fn id(&mut self) -> Id {
        self.next += 1;
        self.next
    }

    fn now(&self) -> Timestamp {
        Timestamp { seconds: self.next as i64, nanos: 0 }
    }

    fn create(&mut self, p: CreateConversation) -> Result<ConversationWithTurns, CoreError> {
        let id = self.id();
        let ids: Vec<Id> = (0..10).map(|_| self.id()).collect();
        let (db, made, event) =
            create_conversation(self.db.clone(), p, id, &ids, self.now())?;
        self.db = db;
        self.events.push(event.type_);
        Ok(made)
    }

    fn append(&mut self, p: AppendTurns) -> Result<Vec<Turn>, CoreError> {
        let ids: Vec<Id> = (0..10).map(|_| self.id()).collect();
        let (db, made, event) = append_turns(self.db.clone(), p, &ids, self.now())?;
        self.db = db;
        self.events.push(event.type_);
        Ok(made)
    }

    fn update(&mut self, id: Id, p: UpdateConversation) -> Result<Conversation, CoreError> {
        self.id();
        let (db, made, event) = update_conversation(self.db.clone(), id, p, self.now())?;
        self.db = db;
        self.events.push(event.type_);
        Ok(made)
    }
}

fn note_turn(role: &str, content: &str) -> CreateTurn {
    CreateTurn { role: role.into(), content: content.into(), attrs: None }
}

fn titled(title: &str, turns: Option<Vec<CreateTurn>>) -> CreateConversation {
    CreateConversation { title: Some(title.into()), tags: None, attrs: None, turns }
}

#[test]
fn create_and_get_round_trips() {
    let mut svc = Chats::new();
    let mut attrs = Attrs::new();
    attrs.set("model".into(), AttrValue::Text("opus".into()));
    let created = svc
        .create(CreateConversation {
            title: Some("Test Chat".into()),
            tags: Some(vec!["test".into()]),
            attrs: Some(AttrsValue::Object(attrs)),
            turns: Some(vec![note_turn("user", "hello"), note_turn("assistant", "hi there")]),
        })
        .unwrap();
    assert_eq!(created.conversation.title, "Test Chat");
    assert_eq!(created.turns.len(), 2);
    assert_eq!(created.turns[0].ordinal, 0);
    assert_eq!(created.turns[1].ordinal, 1);
    let fetched = get_conversation(&svc.db, created.conversation.id).unwrap();
    assert_eq!(fetched.conversation.title, "Test Chat");
    assert_eq!(fetched.turns.len(), 2);
    assert_eq!(format!("{fetched:?}"), format!("{created:?}"));
}

#[test]
fn create_without_initial_turns() {
    let mut svc = Chats::new();
    let created = svc.create(titled("Empty", None)).unwrap();
    assert_eq!(created.conversation.turn_count, 0);
    assert!(created.turns.is_empty());
}

#[test]
fn create_defaults_title_to_empty() {
    let mut svc = Chats::new();
    let p = CreateConversation { title: None, tags: None, attrs: None, turns: None };
    let created = svc.create(p).unwrap();
    assert_eq!(created.conversation.title, "");
}

#[test]
fn append_turns_adds_in_order() {
    let mut svc = Chats::new();
    let conv = svc.create(titled("Chat", Some(vec![note_turn("user", "first")]))).unwrap();
    let appended = svc
        .append(AppendTurns {
            conversation_id: conv.conversation.id,
            turns: vec![note_turn("assistant", "second"), note_turn("user", "third")],
        })
        .unwrap();
    assert_eq!(appended.len(), 2);
    assert_eq!(appended[0].ordinal, 1);
    assert_eq!(appended[1].ordinal, 2);
    let refreshed = get_conversation(&svc.db, conv.conversation.id).unwrap();
    assert_eq!(refreshed.turns.len(), 3);
    assert_eq!(refreshed.conversation.turn_count, 3);
    assert_eq!(refreshed.turns[2].content, "third");
    assert_eq!(svc.events, vec!["conversation.created", "turn.appended"]);
}

#[test]
fn appending_no_turn_leaves_the_conversation_as_it_is() {
    let mut svc = Chats::new();
    let conv = svc.create(titled("Chat", Some(vec![note_turn("user", "first")]))).unwrap();
    let id = conv.conversation.id;
    let none = svc.append(AppendTurns { conversation_id: id, turns: Vec::new() }).unwrap();
    assert!(none.is_empty());
    let same = get_conversation(&svc.db, id).unwrap();
    assert_eq!(format!("{same:?}"), format!("{conv:?}"));
    svc.append(AppendTurns { conversation_id: id, turns: vec![note_turn("user", "x")] }).unwrap();
    let grown = get_conversation(&svc.db, id).unwrap();
    assert!(conv.conversation.updated_at.is_before(&grown.conversation.updated_at));
}

#[test]
fn append_to_nonexistent_conversation_fails() {
    let mut svc = Chats::new();
    let bad_id = parse_id("01ARZ3NDEKTSV4RRFFQ69G5FAV").unwrap();
    let err = svc
        .append(AppendTurns { conversation_id: bad_id, turns: vec![note_turn("user", "hi")] })
        .unwrap_err();
    assert!(matches!(err, CoreError::NotFound(_)));
}

#[test]
fn a_turn_whose_attributes_are_no_object_refuses_them_all() {
    let mut svc = Chats::new();
    let bad = CreateTurn { attrs: Some(AttrsValue::Other("1".into())), ..note_turn("user", "x") };
    let err = svc.create(titled("t", Some(vec![note_turn("user", "a"), bad]))).unwrap_err();
    assert!(matches!(err, CoreError::Validation(m) if m == "turn attrs must be a JSON object"));
    assert!(svc.db.conversations.is_empty());
}

#[test]
fn list_returns_paginated() {
    let mut svc = Chats::new();
    for i in 0..5 {
        svc.create(titled(&format!("conv{i}"), None)).unwrap();
    }
    let q = ConversationListQuery { limit: 2, ..Default::default() };
    let page = list_conversations(&svc.db.conversations, &q);
    assert_eq!(page.items.len(), 2);
    assert_eq!(page.total, 5);
    assert!(page.has_more);
    assert_eq!(page.items[0].title, "conv4", "newest first");
}

#[test]
fn conversations_are_listed_by_tag() {
    let mut svc = Chats::new();
    svc.create(CreateConversation { tags: Some(vec!["a".into()]), ..titled("x", None) }).unwrap();
    svc.create(titled("y", None)).unwrap();
    let q = ConversationListQuery { tag: Some("a".into()), ..Default::default() };
    let page = list_conversations(&svc.db.conversations, &q);
    assert_eq!(page.items.len(), 1);
    assert_eq!(page.items[0].title, "x");
    assert!(!page.has_more);
}

#[test]
fn update_changes_title() {
    let mut svc = Chats::new();
    let conv = svc.create(titled("Old", None)).unwrap();
    let p = UpdateConversation { title: Some("New".into()), tags: None, attrs: None };
    let updated = svc.update(conv.conversation.id, p).unwrap();
    assert_eq!(updated.title, "New");
    let fetched = get_conversation(&svc.db, conv.conversation.id).unwrap();
    assert_eq!(fetched.conversation.title, "New");
}

#[test]
fn delete_cascades_to_turns() {
    let mut svc = Chats::new();
    let conv = svc.create(titled("ToDelete", Some(vec![note_turn("user", "msg")]))).unwrap();
    let conv_id = conv.conversation.id;
    let (db, _, event) = delete_conversation(svc.db.clone(), conv_id).unwrap();
    assert_eq!(event.type_, "conversation.deleted");
    // Getting should fail.
    assert!(matches!(get_conversation(&db, conv_id).unwrap_err(), CoreError::NotFound(_)));
    // Turns should be gone too.
    assert!(db.turns.iter().all(|t| t.conversation_id != conv_id));
    assert!(matches!(delete_conversation(db, conv_id), Err(CoreError::NotFound(_))));
}

#[test]
fn search_finds_turn_content() {
    let mut svc = Chats::new();
    let conv = svc
        .create(titled("Chat", Some(vec![note_turn("user", "Rust ownership is unique")])))
        .unwrap();
    assert!(uses_index("ownership"));
    let turn = conv.turns[0].clone();
    let found = search_result(conv.conversation, turn, "ownership", 1.5f32.to_bits());
    assert!(found.snippet.contains("ownership"));
    assert!(f32::from_bits(found.score) >= 0.0);
    assert_eq!(found.snippet, "Rust **ownership** is unique");
}

#[test]
fn search_short_query_uses_like_fallback() {
    // 2-char query: matched by pattern.
    assert!(!uses_index("Ru"));
    assert_eq!(pattern_for("Ru"), "%Ru%");
}
