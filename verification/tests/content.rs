use nomai_core::attrs::{AttrValue, Attrs, AttrsValue};
use nomai_core::block_model::{Block, BlockInput, CreateBlock};
use nomai_core::blocks::{
    append_block, create_block, delete_block, get_block, list_blocks, update_block, BlockChange,
};
use nomai_core::chunk_model::{Chunk, DimReconciliation};
use nomai_core::chunks::{
    ensure_vec_chunk_embeddings, ensure_vec_query_affinities, get_chunk, list_chunks,
    parse_vec_dim, write_declaration,
};
use nomai_core::content::ContentDb;
use nomai_core::entries::{create_entry, delete_entry, FreshIds};
use nomai_core::entry_model::CreateEntry;
use nomai_core::error::CoreError;
use nomai_core::event_model::EventHead;
use nomai_core::ids::{parse_id, Id};
use nomai_core::link_model::{
    CreateLink, Direction, Link, ListLinkQuery, ListLinkResult, NeighborsQuery, NeighborsResult,
};
use nomai_core::links::{create_link, delete_link, get_link, list_links, neighbors};
use nomai_core::model::{Entry, EntryRow};
use nomai_core::time::Timestamp;

/// A store in memory that hands out identifiers and times.
struct Store {
    db: ContentDb,
    events: Vec<EventHead>,
    next: Id,
    target: usize,
}

impl Store {
    fn new() -> Store {
        Store {
            db: ContentDb {
                entries: Vec::new(),
                blocks: Vec::new(),
                chunks: Vec::new(),
                links: Vec::new(),
            },
            events: Vec::new(),
            next: 1,
            target: 1024,
        }
    }

    fn id(&mut self) -> Id {
        self.next += 1;
        self.next
    }

    fn ids(&mut self, n: usize) -> Vec<Id> {
        (0..n).map(|_| self.id()).collect()
    }

    fn now(&self) -> Timestamp {
        Timestamp { seconds: 1_782_208_800 + self.next as i64, nanos: 0 }
    }

    /// An entry without blocks.
    fn seed_entry(&mut self) -> Id {
        let id = self.id();
        let now = self.now();
        self.db.entries.push(EntryRow {
            id,
            title: "seed".into(),
            tags: Vec::new(),
            attrs: AttrsValue::Object(Attrs::new()),
            source: None,
            fs_path: None,
            fs_mtime: None,
            created_at: now,
            updated_at: now,
        });
        id
    }

    fn create(&mut self, p: CreateBlock) -> Result<Block, CoreError> {
        let id = self.id();
        let chunk_ids = self.ids(300);
        let now = self.now();
        let (db, block, event) =
            create_block(self.db.clone(), p, id, &chunk_ids, self.target, now)?;
        self.db = db;
        self.events.push(event);
        Ok(block)
    }

    fn append(&mut self, entry: Id, type_: &str, text: &str) -> Result<Block, CoreError> {
        let id = self.id();
        let chunk_ids = self.ids(300);
        let now = self.now();
        let (db, block, event) = append_block(
            self.db.clone(),
            entry,
            type_.into(),
            text.into(),
            None,
            id,
            &chunk_ids,
            self.target,
            now,
        )?;
        self.db = db;
        self.events.push(event);
        Ok(block)
    }

    fn update(&mut self, id: Id, change: BlockChange) -> Result<Block, CoreError> {
        let chunk_ids = self.ids(300);
        let now = self.now();
        let (db, block, event) =
            update_block(self.db.clone(), id, change, &chunk_ids, self.target, now)?;
        self.db = db;
        self.events.push(event);
        Ok(block)
    }

    fn delete(&mut self, id: Id) -> Result<Block, CoreError> {
        let (db, block, event) = delete_block(self.db.clone(), id)?;
        self.db = db;
        self.events.push(event);
        Ok(block)
    }

    fn seed_block(&mut self, entry_id: Id, ordinal: u32, ty: &str) -> Block {
        self.create(CreateBlock {
            entry_id,
            ordinal,
            type_: ty.into(),
            text: format!("block {ordinal}"),
            attrs: None,
        })
        .unwrap()
    }

    fn add_entry(&mut self, title: &str, ty: &str, text: &str) -> Entry {
        let id = self.id();
        let fresh = FreshIds { blocks: self.ids(1), chunks: vec![self.ids(10)] };
        let now = self.now();
        let p = CreateEntry {
            title: title.into(),
            blocks: vec![BlockInput { type_: ty.into(), text: text.into(), attrs: None }],
            tags: None,
            attrs: None,
            source: None,
        };
        let (db, entry, event) =
            create_entry(self.db.clone(), p, id, "m".into(), &fresh, self.target, now).unwrap();
        self.db = db;
        self.events.push(event);
        entry
    }

    fn note(&mut self, title: &str) -> Id {
        self.add_entry(title, "note", "body").id
    }

    fn link(&mut self, source_id: Id, target_id: Id, relation: &str) -> Result<Link, CoreError> {
        self.link_with(source_id, target_id, relation, None)
    }

    fn link_with(
        &mut self,
        source_id: Id,
        target_id: Id,
        relation: &str,
        attrs: Option<AttrsValue>,
    ) -> Result<Link, CoreError> {
        let id = self.id();
        let now = self.now();
        let p = CreateLink { source_id, target_id, relation: relation.into(), attrs };
        let (db, link, event) = create_link(self.db.clone(), p, id, now)?;
        self.db = db;
        self.events.push(event);
        Ok(link)
    }

    fn unlink(&mut self, id: Id) -> Result<Link, CoreError> {
        let (db, link, event) = delete_link(self.db.clone(), id)?;
        self.db = db;
        self.events.push(event);
        Ok(link)
    }

    fn list_links(
        &self,
        from: Option<Id>,
        to: Option<Id>,
        relation: Option<&str>,
        limit: u32,
        offset: u32,
    ) -> Result<ListLinkResult, CoreError> {
        let relation = relation.map(|r| r.to_string());
        list_links(&self.db.links, &ListLinkQuery { from, to, relation, limit, offset })
    }

    fn neighbors(
        &self,
        id: Id,
        direction: Direction,
        relation: Option<&str>,
        limit: u32,
    ) -> NeighborsResult {
        let relation = relation.map(|r| r.to_string());
        neighbors(&self.db, &NeighborsQuery { id, direction, relation, limit })
    }

    fn seed_entry_and_block(&mut self) -> (Id, Id) {
        let entry = self.add_entry("t", "note", "block body");
        (entry.id, list_blocks(&self.db, entry.id, false).items[0].id)
    }

    fn insert_chunk(&mut self, block_id: Id, ordinal: u32, text: &str) -> Id {
        let id = self.id();
        let now = self.now();
        self.db.chunks.push(Chunk {
            id,
            block_id,
            ordinal,
            text: text.into(),
            attrs: AttrsValue::Object(Attrs::new()),
            created_at: now,
            updated_at: now,
        });
        id
    }
}

fn phantom() -> Id {
    parse_id("01ARZ3NDEKTSV4RRFFQ69G5FAV").unwrap()
}

fn object(members: &[(&str, &str)]) -> AttrsValue {
    let mut out = Attrs::new();
    for (k, v) in members {
        out.set(k.to_string(), AttrValue::Text(v.to_string()));
    }
    AttrsValue::Object(out)
}

fn member(attrs: &AttrsValue, key: &str) -> Option<String> {
    match attrs {
        AttrsValue::Object(a) => a.get(key).map(|v| v.as_text().to_string()),
        AttrsValue::Other(_) => None,
    }
}

fn is_empty_object(attrs: &AttrsValue) -> bool {
    matches!(attrs, AttrsValue::Object(a) if a.members.is_empty())
}

fn note(entry_id: Id, text: &str) -> CreateBlock {
    CreateBlock { entry_id, ordinal: 0, type_: "note".into(), text: text.into(), attrs: None }
}

fn text_change(text: &str) -> BlockChange {
    BlockChange { type_: None, text: Some(text.into()), attrs: None }
}

#[test]
fn create_inserts_block_and_returns_it() {
    let mut svc = Store::new();
    let entry_id = svc.seed_entry();
    let block = svc
        .create(CreateBlock {
            entry_id,
            ordinal: 0,
            type_: "claim".into(),
            text: "Earth orbits the sun.".into(),
            attrs: Some(object(&[("confidence", "high")])),
        })
        .unwrap();
    assert_eq!(block.entry_id, entry_id);
    assert_eq!(block.ordinal, 0);
    assert_eq!(block.type_, "claim");
    assert_eq!(block.text, "Earth orbits the sun.");
    assert_eq!(member(&block.attrs, "confidence").as_deref(), Some("high"));
}

#[test]
fn create_emits_block_created_event() {
    let mut svc = Store::new();
    let entry_id = svc.seed_entry();
    let block = svc.create(note(entry_id, "x")).unwrap();
    assert_eq!(svc.events.len(), 1);
    assert_eq!(svc.events[0].type_, "block.created");
    assert_eq!(svc.events[0].target_type, "block");
    assert_eq!(svc.events[0].target_id, block.id);
}

#[test]
fn create_rejects_unknown_entry_id() {
    let mut svc = Store::new();
    let err = svc.create(note(phantom(), "x")).unwrap_err();
    assert!(matches!(err, CoreError::Validation(_)));
}

#[test]
fn create_rejects_duplicate_entry_ordinal() {
    let mut svc = Store::new();
    let entry_id = svc.seed_entry();
    svc.create(note(entry_id, "first")).unwrap();
    // duplicate
    let err = svc.create(note(entry_id, "second")).unwrap_err();
    assert!(matches!(err, CoreError::Validation(_)));
}

#[test]
fn block_service_create_rejects_non_object_attrs() {
    let mut svc = Store::new();
    let entry_id = svc.seed_entry();
    let p = CreateBlock { attrs: Some(AttrsValue::Other("[1,2,3]".into())), ..note(entry_id, "x") };
    let err = svc.create(p).unwrap_err();
    assert!(matches!(err, CoreError::Validation(_)));
}

#[test]
fn block_service_create_defaults_attrs_to_empty_object() {
    let mut svc = Store::new();
    let entry_id = svc.seed_entry();
    let block = svc.create(note(entry_id, "x")).unwrap();
    assert!(is_empty_object(&block.attrs));
}

#[test]
fn list_returns_blocks_ordered_by_ordinal() {
    let mut svc = Store::new();
    let entry_id = svc.seed_entry();
    // Insert out of order
    svc.seed_block(entry_id, 2, "note");
    svc.seed_block(entry_id, 0, "claim");
    svc.seed_block(entry_id, 1, "evidence");
    let result = list_blocks(&svc.db, entry_id, false);
    assert_eq!(result.total, 3);
    assert_eq!(result.items[0].ordinal, 0);
    assert_eq!(result.items[1].ordinal, 1);
    assert_eq!(result.items[2].ordinal, 2);
    assert_eq!(result.items[0].type_, "claim");
}

#[test]
fn list_returns_empty_for_entry_with_no_blocks() {
    let mut svc = Store::new();
    let entry_id = svc.seed_entry();
    let result = list_blocks(&svc.db, entry_id, false);
    assert_eq!(result.total, 0);
    assert!(result.items.is_empty());
}

#[test]
fn list_only_returns_blocks_for_target_entry() {
    let mut svc = Store::new();
    let entry_a = svc.seed_entry();
    let entry_b = svc.seed_entry();
    svc.seed_block(entry_a, 0, "note");
    svc.seed_block(entry_a, 1, "note");
    svc.seed_block(entry_b, 0, "note");
    assert_eq!(list_blocks(&svc.db, entry_a, false).total, 2);
    assert_eq!(list_blocks(&svc.db, entry_b, false).total, 1);
}

#[test]
fn get_returns_block_by_id() {
    let mut svc = Store::new();
    let entry_id = svc.seed_entry();
    let created = svc.seed_block(entry_id, 0, "claim");
    let fetched = get_block(&svc.db, created.id, false).unwrap();
    assert_eq!(format!("{created:?}"), format!("{fetched:?}"));
}

#[test]
fn get_returns_not_found_for_missing_id() {
    let svc = Store::new();
    let err = get_block(&svc.db, phantom(), false).unwrap_err();
    assert!(matches!(err, CoreError::NotFound(_)));
}

#[test]
fn delete_removes_block_and_returns_snapshot() {
    let mut svc = Store::new();
    let entry_id = svc.seed_entry();
    let created = svc.seed_block(entry_id, 0, "claim");
    let deleted = svc.delete(created.id).unwrap();
    assert_eq!(deleted.id, created.id);
    assert_eq!(deleted.text, created.text);
    let err = get_block(&svc.db, created.id, false).unwrap_err();
    assert!(matches!(err, CoreError::NotFound(_)));
    assert!(svc.db.chunks.is_empty(), "chunks go with their block");
}

#[test]
fn delete_emits_block_deleted_event() {
    let mut svc = Store::new();
    let entry_id = svc.seed_entry();
    let created = svc.seed_block(entry_id, 0, "note");
    svc.delete(created.id).unwrap();
    let event = svc.events.last().unwrap();
    assert_eq!(event.type_, "block.deleted");
    assert_eq!(event.target_id, created.id);
}

#[test]
fn delete_returns_not_found_for_missing_id() {
    let mut svc = Store::new();
    let err = svc.delete(phantom()).unwrap_err();
    assert!(matches!(err, CoreError::NotFound(_)));
}

#[test]
fn append_adds_block_at_end() {
    let mut svc = Store::new();
    let entry_id = svc.seed_entry();
    svc.create(note(entry_id, "first")).unwrap();
    let appended = svc.append(entry_id, "claim", "appended").unwrap();
    assert_eq!(appended.entry_id, entry_id);
    assert_eq!(appended.ordinal, 1, "append should use max ordinal + 1");
    assert_eq!(appended.type_, "claim");
    let list = list_blocks(&svc.db, entry_id, false);
    assert_eq!(list.total, 2);
    assert_eq!(list.items[1].id, appended.id);
}

#[test]
fn append_to_empty_entry_uses_ordinal_zero() {
    let mut svc = Store::new();
    let entry_id = svc.seed_entry();
    let appended = svc.append(entry_id, "note", "first").unwrap();
    assert_eq!(appended.ordinal, 0);
}

#[test]
fn append_emits_block_created_event() {
    let mut svc = Store::new();
    let entry_id = svc.seed_entry();
    let block = svc.append(entry_id, "note", "x").unwrap();
    assert_eq!(svc.events[0].type_, "block.created");
    assert_eq!(svc.events[0].target_id, block.id);
}

#[test]
fn append_to_an_unknown_entry_is_not_found() {
    let mut svc = Store::new();
    let err = svc.append(phantom(), "note", "x").unwrap_err();
    assert!(matches!(err, CoreError::NotFound(id) if id == phantom()));
}

#[test]
fn an_unknown_block_type_is_refused() {
    let mut svc = Store::new();
    let entry_id = svc.seed_entry();
    let unknown = |e: CoreError| matches!(e, CoreError::Validation(m) if m == "unknown block type: poem");
    assert!(unknown(svc.append(entry_id, "poem", "x").unwrap_err()));
    let p = CreateBlock { type_: "poem".into(), ..note(entry_id, "x") };
    assert!(unknown(svc.create(p).unwrap_err()));
    let block = svc.append(entry_id, "note", "x").unwrap();
    let change = BlockChange { type_: Some("poem".into()), text: None, attrs: None };
    assert!(unknown(svc.update(block.id, change).unwrap_err()));
    let change = BlockChange { type_: Some("claim".into()), text: None, attrs: None };
    assert_eq!(svc.update(block.id, change).unwrap().type_, "claim");
}

#[test]
fn update_changes_block_text() {
    let mut svc = Store::new();
    let entry_id = svc.seed_entry();
    let block = svc.append(entry_id, "note", "original").unwrap();
    let updated = svc.update(block.id, text_change("new text")).unwrap();
    assert_eq!(updated.text, "new text");
    assert_eq!(updated.type_, "note"); // unchanged
    let stored = get_block(&svc.db, block.id, false).unwrap();
    assert_eq!(format!("{stored:?}"), format!("{updated:?}"));
}

#[test]
fn update_re_chunks_when_text_changes() {
    let mut svc = Store::new();
    let entry_id = svc.seed_entry();
    let long_text: String = "para.\n\n".repeat(200); // > 1024 chars
    let block = svc.append(entry_id, "note", &long_text).unwrap();
    let before_count = list_chunks(&svc.db, block.id, false).total;
    svc.update(block.id, text_change("short")).unwrap();
    let after_count = list_chunks(&svc.db, block.id, false).total;
    assert!(
        after_count < before_count,
        "re-chunking should reduce chunk count for shorter text"
    );
    assert_eq!(after_count, 1);
}

#[test]
fn update_keeps_chunks_when_text_stays() {
    let mut svc = Store::new();
    let entry_id = svc.seed_entry();
    let block = svc.append(entry_id, "note", "same").unwrap();
    let before = svc.db.chunks[0].id;
    svc.update(block.id, text_change("same")).unwrap();
    assert_eq!(svc.db.chunks[0].id, before);
}

#[test]
fn update_of_a_block_rejects_attributes_that_are_no_object() {
    let mut svc = Store::new();
    let entry_id = svc.seed_entry();
    let block = svc.append(entry_id, "note", "x").unwrap();
    let change = BlockChange { type_: None, text: None, attrs: Some(AttrsValue::Other("1".into())) };
    let err = svc.update(block.id, change).unwrap_err();
    assert!(matches!(err, CoreError::Validation(m) if m == "attrs must be a JSON object"));
}

#[test]
fn update_emits_block_updated_event() {
    let mut svc = Store::new();
    let entry_id = svc.seed_entry();
    let block = svc.append(entry_id, "note", "x").unwrap();
    svc.update(block.id, BlockChange { type_: Some("claim".into()), text: None, attrs: None })
        .unwrap();
    let event = svc.events.last().unwrap();
    assert_eq!(event.type_, "block.updated");
    assert_eq!(event.target_id, block.id);
}

#[test]
fn update_returns_not_found_for_missing_block() {
    let mut svc = Store::new();
    let err = svc.update(phantom(), text_change("x")).unwrap_err();
    assert!(matches!(err, CoreError::NotFound(_)));
}

#[test]
fn delete_cascades_when_entry_deleted() {
    let mut svc = Store::new();
    let entry = svc.add_entry("x", "note", "y");
    // The entry has a block at ordinal 0; add two more at 1, 2.
    svc.seed_block(entry.id, 1, "note");
    svc.seed_block(entry.id, 2, "note");
    assert_eq!(list_blocks(&svc.db, entry.id, false).total, 3);
    let (db, _, _) = delete_entry(svc.db.clone(), entry.id).unwrap();
    assert_eq!(list_blocks(&db, entry.id, false).total, 0);
    assert!(db.chunks.is_empty());
}

#[test]
fn chunk_target_size_splits_block_when_set_below_default() {
    let mut svc = Store::new();
    svc.target = 50;
    let entry_id = svc.seed_entry();
    // 200 chars, no paragraph or sentence boundaries: hard cuts produce
    // 4 chunks of 50 chars each.
    let long_text = "x".repeat(200);
    let block = svc.append(entry_id, "note", &long_text).unwrap();
    let result = list_chunks(&svc.db, block.id, false);
    assert!(
        result.total > 1,
        "expected multiple chunks with target_size=50, got {}",
        result.total
    );
    assert_eq!(result.total, 4);
    for chunk in &result.items {
        assert!(
            chunk.text.chars().count() <= 50,
            "chunk text exceeded target_size: {} chars",
            chunk.text.chars().count()
        );
    }
}

// Chunks

#[test]
fn list_returns_empty_for_block_with_no_chunks() {
    let mut svc = Store::new();
    let (_entry_id, block_id) = svc.seed_entry_and_block();
    svc.db.chunks.clear();
    let result = list_chunks(&svc.db, block_id, false);
    assert_eq!(result.total, 0);
    assert!(result.items.is_empty());
}

#[test]
fn list_returns_chunks_for_block_sorted_by_ordinal() {
    let mut svc = Store::new();
    let (_entry_id, block_id) = svc.seed_entry_and_block();
    svc.db.chunks.clear();
    svc.insert_chunk(block_id, 2, "two");
    svc.insert_chunk(block_id, 0, "zero");
    svc.insert_chunk(block_id, 1, "one");
    let result = list_chunks(&svc.db, block_id, false);
    assert_eq!(result.total, 3);
    assert_eq!(result.items[0].ordinal, 0);
    assert_eq!(result.items[0].text, "zero");
    assert_eq!(result.items[1].ordinal, 1);
    assert_eq!(result.items[2].ordinal, 2);
}

#[test]
fn list_only_returns_chunks_for_target_block() {
    let mut svc = Store::new();
    let a = svc.add_entry("a", "note", "block a body");
    let b = svc.add_entry("b", "note", "block b body");
    let block_a = list_blocks(&svc.db, a.id, false).items[0].id;
    let block_b = list_blocks(&svc.db, b.id, false).items[0].id;
    let result_a = list_chunks(&svc.db, block_a, false);
    assert_eq!(result_a.total, 1);
    assert_eq!(result_a.items[0].text, "block a body");
    let result_b = list_chunks(&svc.db, block_b, false);
    assert_eq!(result_b.total, 1);
    assert_eq!(result_b.items[0].text, "block b body");
}

#[test]
fn get_returns_chunk_by_id() {
    let mut svc = Store::new();
    let (_entry_id, block_id) = svc.seed_entry_and_block();
    let listed = list_chunks(&svc.db, block_id, false);
    assert_eq!(listed.total, 1);
    let fetched = get_chunk(&svc.db, listed.items[0].id, false).unwrap();
    assert_eq!(format!("{:?}", listed.items[0]), format!("{fetched:?}"));
}

#[test]
fn chunk_service_get_returns_not_found_for_unknown_id() {
    let svc = Store::new();
    let err = get_chunk(&svc.db, phantom(), false).unwrap_err();
    assert!(matches!(err, CoreError::NotFound(_)));
}

#[test]
fn auto_derived_chunk_has_parent_block_type_attr() {
    let mut svc = Store::new();
    let (_entry_id, block_id) = svc.seed_entry_and_block();
    let result = list_chunks(&svc.db, block_id, false);
    assert_eq!(result.total, 1);
    assert_eq!(member(&result.items[0].attrs, "parent_block_type").as_deref(), Some("note"));
}

fn declared(dim: usize) -> Option<String> {
    Some(write_declaration("vec_chunk_embeddings", "chunk_id", dim))
}

#[test]
fn ensure_vec_chunk_embeddings_is_idempotent() {
    // The first call finds another dimension, the second the one it asked for.
    assert!(ensure_vec_chunk_embeddings(&declared(1536), 8).is_ok());
    assert!(ensure_vec_chunk_embeddings(&declared(8), 8).is_ok());
}

#[test]
fn ensure_vec_chunk_embeddings_creates_when_missing() {
    let result = ensure_vec_chunk_embeddings(&None, 2048).unwrap();
    match result {
        DimReconciliation::Created { dim } => assert_eq!(dim, 2048),
        other => panic!("expected Created, got {other:?}"),
    }
    let sql = declared(2048).unwrap();
    assert!(sql.contains("FLOAT[2048]"), "table should have dim 2048");
}

#[test]
fn ensure_vec_chunk_embeddings_recreates_on_dim_mismatch() {
    let result = ensure_vec_chunk_embeddings(&declared(1536), 2048).unwrap();
    match result {
        DimReconciliation::Recreated { from, to } => {
            assert_eq!(from, 1536);
            assert_eq!(to, 2048);
        }
        other => panic!("expected Recreated, got {other:?}"),
    }
    let sql = declared(2048).unwrap();
    assert!(sql.contains("FLOAT[2048]"));
}

#[test]
fn ensure_vec_chunk_embeddings_returns_consistent_when_dims_match() {
    let result = ensure_vec_chunk_embeddings(&declared(1536), 1536).unwrap();
    assert!(matches!(result, DimReconciliation::Consistent { dim: 1536 }));
}

#[test]
fn ensure_vec_chunk_embeddings_errors_on_corrupt_sql_not_panic() {
    let sql = "CREATE TABLE vec_chunk_embeddings (
                        chunk_id TEXT PRIMARY KEY,
                        embedding BLOB
                    )";
    let result = ensure_vec_chunk_embeddings(&Some(sql.to_string()), 1536);
    assert!(result.is_err(), "expected Err on corrupt SQL, got {:?}", result);
    let err = result.unwrap_err();
    assert!(
        matches!(err, CoreError::Storage(_)),
        "expected CoreError::Storage, got {:?}",
        err
    );
}

#[test]
fn vec_affinity_table_reconciles_dimension() {
    let table = |dim| Some(write_declaration("vec_query_affinities", "affinity_id", dim));
    assert!(matches!(
        ensure_vec_query_affinities(&None, 4).unwrap(),
        DimReconciliation::Created { dim: 4 }
    ));
    assert!(matches!(
        ensure_vec_query_affinities(&table(4), 4).unwrap(),
        DimReconciliation::Consistent { dim: 4 }
    ));
    assert!(matches!(
        ensure_vec_query_affinities(&table(4), 8).unwrap(),
        DimReconciliation::Recreated { from: 4, to: 8 }
    ));
}

#[test]
fn a_declared_dimension_reads_back() {
    assert_eq!(parse_vec_dim(&write_declaration("t", "k", 7)), Some(7));
    assert_eq!(parse_vec_dim("embedding FLOAT[x]"), None);
    assert_eq!(parse_vec_dim("embedding FLOAT[12"), None);
}

// Links

#[test]
fn create_returns_link_with_generated_id_and_timestamp() {
    let mut svc = Store::new();
    let a = svc.note("a");
    let b = svc.note("b");
    let link = svc.link(a, b, "references").unwrap();
    assert_eq!(link.source_id, a);
    assert_eq!(link.target_id, b);
    assert_eq!(link.relation, "references");
    assert!(is_empty_object(&link.attrs)); // defaulted to empty object
    assert!(!svc.now().is_before(&link.created_at));
}

#[test]
fn create_persists_link_retrievable_via_direct_query() {
    let mut svc = Store::new();
    let a = svc.note("a");
    let b = svc.note("b");
    let link = svc.link_with(a, b, "references", Some(object(&[("note", "see also")]))).unwrap();
    let stored = svc.db.links.iter().find(|l| l.id == link.id).unwrap();
    assert_eq!(stored.source_id, a);
    assert_eq!(stored.target_id, b);
    assert_eq!(stored.relation, "references");
    assert_eq!(member(&stored.attrs, "note").as_deref(), Some("see also"));
}

#[test]
fn link_service_create_rejects_non_object_attrs() {
    let mut svc = Store::new();
    let a = svc.note("a");
    let b = svc.note("b");
    let err = svc.link_with(a, b, "x", Some(AttrsValue::Other("[1,2,3]".into()))).unwrap_err();
    assert!(matches!(err, CoreError::Validation(_)));
}

#[test]
fn create_returns_validation_when_source_does_not_exist() {
    let mut svc = Store::new();
    let b = svc.note("b");
    let err = svc.link(phantom(), b, "x").unwrap_err();
    assert!(matches!(err, CoreError::Validation(_)));
}

#[test]
fn create_returns_validation_when_target_does_not_exist() {
    let mut svc = Store::new();
    let a = svc.note("a");
    let err = svc.link(a, phantom(), "x").unwrap_err();
    assert!(matches!(err, CoreError::Validation(_)));
}

#[test]
fn create_returns_validation_on_duplicate_source_target_relation() {
    let mut svc = Store::new();
    let a = svc.note("a");
    let b = svc.note("b");
    svc.link(a, b, "references").unwrap();
    let err = svc.link(a, b, "references").unwrap_err();
    assert!(matches!(err, CoreError::Validation(_)));
}

#[test]
fn create_allows_same_pair_with_different_relation() {
    let mut svc = Store::new();
    let a = svc.note("a");
    let b = svc.note("b");
    svc.link(a, b, "references").unwrap();
    // Different relation: should succeed (unique is the triple).
    svc.link(a, b, "see_also").unwrap();
}

#[test]
fn get_returns_link_created_by_create() {
    let mut svc = Store::new();
    let a = svc.note("a");
    let b = svc.note("b");
    let created = svc.link(a, b, "references").unwrap();
    let fetched = get_link(&svc.db.links, created.id).unwrap();
    assert_eq!(format!("{created:?}"), format!("{fetched:?}"));
}

#[test]
fn link_service_get_returns_not_found_for_unknown_id() {
    let svc = Store::new();
    let err = get_link(&svc.db.links, phantom()).unwrap_err();
    assert!(matches!(err, CoreError::NotFound(_)));
}

#[test]
fn delete_removes_link() {
    let mut svc = Store::new();
    let a = svc.note("a");
    let b = svc.note("b");
    let created = svc.link(a, b, "references").unwrap();
    svc.unlink(created.id).unwrap();
    let err = get_link(&svc.db.links, created.id).unwrap_err();
    assert!(matches!(err, CoreError::NotFound(_)));
}

#[test]
fn link_service_delete_returns_not_found_for_unknown_id() {
    let mut svc = Store::new();
    let err = svc.unlink(phantom()).unwrap_err();
    assert!(matches!(err, CoreError::NotFound(_)));
}

#[test]
fn list_returns_validation_when_neither_from_nor_to_given() {
    let svc = Store::new();
    let err = svc.list_links(None, None, None, 50, 0).unwrap_err();
    assert!(matches!(err, CoreError::Validation(_)));
}

#[test]
fn list_by_from_returns_all_outgoing_links() {
    let mut svc = Store::new();
    let a = svc.note("a");
    let b = svc.note("b");
    let c = svc.note("c");
    svc.link(a, b, "references").unwrap();
    svc.link(a, c, "see_also").unwrap();
    svc.link(b, c, "references").unwrap(); // not from a
    let result = svc.list_links(Some(a), None, None, 50, 0).unwrap();
    assert_eq!(result.items.len(), 2);
    assert_eq!(result.total, 2);
    assert!(result.items.iter().all(|l| l.source_id == a));
}

#[test]
fn list_by_to_returns_all_incoming_links() {
    let mut svc = Store::new();
    let a = svc.note("a");
    let b = svc.note("b");
    let c = svc.note("c");
    svc.link(a, c, "r").unwrap();
    svc.link(b, c, "r").unwrap();
    svc.link(c, a, "r").unwrap(); // not to c
    let result = svc.list_links(None, Some(c), None, 50, 0).unwrap();
    assert_eq!(result.items.len(), 2);
    assert_eq!(result.total, 2);
    assert!(result.items.iter().all(|l| l.target_id == c));
}

#[test]
fn list_filters_by_relation() {
    let mut svc = Store::new();
    let a = svc.note("a");
    let b = svc.note("b");
    svc.link(a, b, "references").unwrap();
    svc.link(a, b, "see_also").unwrap();
    let result = svc.list_links(Some(a), None, Some("references"), 50, 0).unwrap();
    assert_eq!(result.items.len(), 1);
    assert_eq!(result.items[0].relation, "references");
}

#[test]
fn list_paginates_with_limit_and_offset() {
    let mut svc = Store::new();
    let a = svc.note("a");
    let others: Vec<Id> = (0..5).map(|i| svc.note(&format!("o{i}"))).collect();
    for o in &others {
        svc.link(a, *o, "r").unwrap();
    }
    let page1 = svc.list_links(Some(a), None, None, 2, 0).unwrap();
    assert_eq!(page1.items.len(), 2);
    assert_eq!(page1.total, 5);
    let page2 = svc.list_links(Some(a), None, None, 2, 2).unwrap();
    assert_eq!(page2.items.len(), 2);
    assert!(page1.items.iter().all(|l| page2.items.iter().all(|m| m.id != l.id)));
}

#[test]
fn list_from_and_to_both_filters_intersection() {
    // from=A AND to=B: only the direct links from A to B (any relation).
    let mut svc = Store::new();
    let a = svc.note("a");
    let b = svc.note("b");
    let c = svc.note("c");
    svc.link(a, b, "r").unwrap();
    svc.link(a, c, "r").unwrap(); // not to b
    svc.link(c, b, "r").unwrap(); // not from a
    let result = svc.list_links(Some(a), Some(b), None, 50, 0).unwrap();
    assert_eq!(result.items.len(), 1);
    assert_eq!(result.total, 1);
}

#[test]
fn deleting_entry_cascades_to_links_as_source() {
    let mut svc = Store::new();
    let a = svc.note("a");
    let b = svc.note("b");
    let c = svc.note("c");
    let link_ab = svc.link(a, b, "r").unwrap();
    let link_ca = svc.link(c, a, "r").unwrap();
    let (db, _, _) = delete_entry(svc.db.clone(), a).unwrap();
    // Both links referencing A (as source or target) should be gone.
    assert!(matches!(get_link(&db.links, link_ab.id).unwrap_err(), CoreError::NotFound(_)));
    assert!(matches!(get_link(&db.links, link_ca.id).unwrap_err(), CoreError::NotFound(_)));
}

#[test]
fn neighbors_out_returns_target_entries_and_links() {
    let mut svc = Store::new();
    let a = svc.note("a");
    let b = svc.note("b");
    let c = svc.note("c");
    let link_ab = svc.link(a, b, "r").unwrap();
    let link_ac = svc.link(a, c, "r").unwrap();
    // Irrelevant: someone else's link.
    svc.link(b, c, "r").unwrap();
    let result = svc.neighbors(a, Direction::Out, None, 50);
    assert_eq!(result.links.len(), 2);
    assert_eq!(result.entries.len(), 2);
    assert!(result.entries.iter().any(|e| e.id == b));
    assert!(result.entries.iter().any(|e| e.id == c));
    assert!(result.links.iter().any(|l| l.id == link_ab.id));
    assert!(result.links.iter().any(|l| l.id == link_ac.id));
}

#[test]
fn neighbors_in_returns_source_entries_and_links() {
    let mut svc = Store::new();
    let a = svc.note("a");
    let b = svc.note("b");
    let c = svc.note("c");
    svc.link(b, a, "r").unwrap();
    svc.link(c, a, "r").unwrap();
    // Irrelevant.
    svc.link(a, b, "r").unwrap();
    let result = svc.neighbors(a, Direction::In, None, 50);
    assert_eq!(result.entries.len(), 2);
    assert!(result.entries.iter().any(|e| e.id == b));
    assert!(result.entries.iter().any(|e| e.id == c));
}

#[test]
fn neighbors_both_dedupes_entries() {
    let mut svc = Store::new();
    let a = svc.note("a");
    let b = svc.note("b");
    svc.link(a, b, "r").unwrap();
    svc.link(b, a, "r").unwrap();
    let result = svc.neighbors(a, Direction::Both, None, 50);
    assert_eq!(result.entries.len(), 1);
    assert_eq!(result.entries[0].id, b);
    assert_eq!(result.links.len(), 2); // both links returned
}

#[test]
fn neighbors_filters_by_relation() {
    let mut svc = Store::new();
    let a = svc.note("a");
    let b = svc.note("b");
    svc.link(a, b, "references").unwrap();
    svc.link(a, b, "see_also").unwrap();
    let result = svc.neighbors(a, Direction::Out, Some("references"), 50);
    assert_eq!(result.links.len(), 1);
    assert_eq!(result.links[0].relation, "references");
    assert_eq!(result.entries.len(), 1);
}

#[test]
fn neighbors_respects_limit() {
    let mut svc = Store::new();
    let a = svc.note("a");
    let others: Vec<Id> = (0..5).map(|i| svc.note(&format!("o{i}"))).collect();
    for o in &others {
        svc.link(a, *o, "r").unwrap();
    }
    let result = svc.neighbors(a, Direction::Out, None, 3);
    assert_eq!(result.links.len(), 3);
    assert_eq!(result.entries.len(), 3);
}

#[test]
fn neighbors_returns_empty_for_isolated_entry() {
    let mut svc = Store::new();
    let a = svc.note("a");
    let result = svc.neighbors(a, Direction::Both, None, 50);
    assert!(result.entries.is_empty());
    assert!(result.links.is_empty());
}

#[test]
fn create_emits_link_created_event_with_full_snapshot() {
    let mut svc = Store::new();
    let a = svc.note("a");
    let b = svc.note("b");
    let link = svc.link(a, b, "references").unwrap();
    let created: Vec<&EventHead> =
        svc.events.iter().filter(|e| e.type_ == "link.created").collect();
    assert_eq!(created.len(), 1);
    assert_eq!(created[0].target_type, "link");
    assert_eq!(created[0].target_id, link.id);
    // The link is the event's payload.
    assert_eq!(link.relation, "references");
    assert_eq!(link.source_id, a);
    assert_eq!(link.target_id, b);
}

#[test]
fn delete_emits_link_deleted_event_with_before_snapshot() {
    let mut svc = Store::new();
    let a = svc.note("a");
    let b = svc.note("b");
    let link = svc.link(a, b, "r").unwrap();
    let snapshot = svc.unlink(link.id).unwrap();
    let deleted: Vec<&EventHead> =
        svc.events.iter().filter(|e| e.type_ == "link.deleted").collect();
    assert_eq!(deleted.len(), 1);
    assert_eq!(deleted[0].target_id, link.id);
    assert_eq!(snapshot.relation, "r");
    assert_eq!(snapshot.id, link.id);
}
