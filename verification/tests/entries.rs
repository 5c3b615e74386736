use nomai_core::attrs::{AttrValue, Attrs, AttrsValue};
use nomai_core::block_model::BlockInput;
use nomai_core::blocks::{get_block, list_blocks};
use nomai_core::chunks::{get_chunk, list_chunks, semantic_search};
use nomai_core::content::ContentDb;
use nomai_core::entries::{
    check_source, check_sources, create_entry, delete_entry, document_of, get_entry,
    parse_block_type, reindex_entry, update_entry, FreshIds,
};
use nomai_core::entry_list::{
    benchmark_ids, is_benchmark_entry, list_entries, purge_preview, purge_result,
    transient_candidates, transient_ids_among,
};
use nomai_core::entry_model::{
    CreateEntry, EntryListOrder, EntryListQuery, EntryListResult, PurgeTransientResult,
    UpdateEntry, PURGE_PREVIEW_LIMIT,
};
use nomai_core::error::CoreError;
use nomai_core::event_model::EventHead;
use nomai_core::fulltext::{
    dedupe_hits, fulltext_search, pattern_for, read_row, uses_index, FtsRow,
    FulltextSearchResult, SearchFilter,
};
use nomai_core::ids::{id_text, parse_id, Id};
use nomai_core::model::{Entry, EntryRow};
use nomai_core::nomai_format::{parse, render, Block, BlockType, NomaiDoc};
use nomai_core::nomai_format_util::document_of_entry;
use nomai_core::sync::{
    export_result, indexed_files, needs_export, rebuild_result, sync_from_fs, sync_result,
    verify_fs, Bucket, ExportOutcome, FoundFile, IndexedFile,
};
use nomai_core::time::{time_text, Timestamp};

/// A store in memory, with the files of its entries.
struct Store {
    db: ContentDb,
    events: Vec<EventHead>,
    files: Vec<(Id, String, Timestamp)>,
    next: Id,
}

impl Store {
    fn new() -> Store {
        Store {
            db: ContentDb {
                entries: Vec::new(),
                blocks: Vec::new(),
                chunks: Vec::new(),
                links: Vec::new(),
            },
            events: Vec::new(),
            files: Vec::new(),
            next: 0,
        }
    }

    fn id(&mut self) -> Id {
        self.next += 1;
        self.next
    }

    fn now(&self) -> Timestamp {
        Timestamp { seconds: 1_782_208_800 + self.next as i64, nanos: 0 }
    }

    fn fresh(&mut self, n: usize) -> FreshIds {
        let blocks = (0..n).map(|_| self.id()).collect();
        let chunks = (0..n).map(|_| (0..4).map(|_| self.id()).collect()).collect();
        FreshIds { blocks, chunks }
    }

    fn write_file(&mut self, id: Id, doc: &NomaiDoc) -> Timestamp {
        self.id();
        let now = self.now();
        self.files.retain(|f| f.0 != id);
        self.files.push((id, render(doc), now));
        now
    }

    /// Check, write the file, and index.
    fn create_with(&mut self, p: CreateEntry, attachments: &[&str]) -> Result<Entry, CoreError> {
        let id = self.id();
        let now = self.now();
        let doc = document_of(&p, id, now)?;
        let names: Vec<String> = attachments.iter().map(|a| a.to_string()).collect();
        check_sources(&p.blocks, &names)?;
        let mtime = self.write_file(id, &doc);
        let fresh = self.fresh(p.blocks.len());
        let (db, entry, event) =
            create_entry(self.db.clone(), p, id, time_text(mtime), &fresh, 1024, now)?;
        self.db = db;
        self.events.push(event);
        Ok(entry)
    }

    fn create(&mut self, p: CreateEntry) -> Result<Entry, CoreError> {
        self.create_with(p, &[])
    }

    fn get(&self, id: Id) -> Result<Entry, CoreError> {
        get_entry(&self.db, id, false)
    }

    fn update(&mut self, id: Id, p: UpdateEntry) -> Result<Entry, CoreError> {
        self.id();
        let (db, entry, event) = update_entry(self.db.clone(), id, p, self.now())?;
        self.db = db;
        self.events.push(event);
        Ok(entry)
    }

    fn delete(&mut self, id: Id) -> Result<Entry, CoreError> {
        let (db, entry, event) = delete_entry(self.db.clone(), id)?;
        self.db = db;
        self.events.push(event);
        self.files.retain(|f| f.0 != id);
        Ok(entry)
    }

    fn list(&self, q: EntryListQuery) -> EntryListResult {
        list_entries(&self.db, &q, false)
    }

    fn seed(&mut self, title: &str, tags: Vec<&str>) -> Entry {
        let tags = tags.into_iter().map(String::from).collect();
        let body = format!("body of {title}");
        self.create(CreateEntry { tags: Some(tags), ..noted(title, vec![note(&body)]) }).unwrap()
    }

    fn seed_transient(&mut self, title: &str, transient: bool) -> Entry {
        let body = format!("body of {title}");
        let attrs = json_object(&[("transient", if transient { "true" } else { "false" })]);
        self.create(CreateEntry { attrs: Some(attrs), ..noted(title, vec![note(&body)]) }).unwrap()
    }

    fn purge(&mut self, before: Option<Timestamp>, dry_run: bool) -> PurgeTransientResult {
        let rows = transient_candidates(&self.db.entries, before);
        if dry_run {
            return purge_preview(&rows);
        }
        let outcomes: Vec<Option<String>> =
            rows.iter().map(|r| self.delete(r.id).err().map(|e| e.to_text())).collect();
        purge_result(&rows, &outcomes)
    }

    /// What an index of words, or a pattern for short queries, would match.
    fn matches(&self, query: &str) -> Vec<FtsRow> {
        let score = if uses_index(query) { 1.5f32 } else { 0.0f32 };
        self.db
            .blocks
            .iter()
            .filter(|b| b.text.to_lowercase().contains(&query.to_lowercase()))
            .map(|b| {
                read_row(
                    &id_text(b.entry_id),
                    &id_text(b.id),
                    b.type_.clone(),
                    b.text.clone(),
                    score.to_bits(),
                )
            })
            .collect()
    }

    fn search(
        &self,
        query: &str,
        block_type: Option<&str>,
        tag: Option<&str>,
    ) -> Vec<FulltextSearchResult> {
        let filter = SearchFilter {
            block_type: block_type.map(String::from),
            tag: tag.map(String::from),
            include_benchmark: false,
        };
        fulltext_search(&self.db, &self.matches(query), &filter, query, 10)
    }

    fn found(&self) -> Vec<FoundFile> {
        self.files.iter().map(|f| FoundFile { id: f.0, mtime: Some(f.2) }).collect()
    }

    fn indexed(&self) -> Vec<IndexedFile> {
        indexed_files(&self.db.entries)
    }

    fn reindex(&mut self, id: Id) -> Result<(), CoreError> {
        let (_, text, mtime) = self.files.iter().find(|f| f.0 == id).cloned().unwrap();
        let doc = parse(&text)?;
        let fresh = self.fresh(doc.blocks.len());
        let now = self.now();
        let (db, _) =
            reindex_entry(self.db.clone(), &doc, id, time_text(mtime), &fresh, 1024, now)?;
        self.db = db;
        Ok(())
    }

    fn sync(&mut self) -> nomai_core::sync::SyncResult {
        let plan = sync_from_fs(&self.found(), &self.indexed());
        for (id, bucket) in &plan.steps {
            match bucket {
                Bucket::Added | Bucket::Updated => self.reindex(*id).unwrap(),
                Bucket::Removed => {
                    self.db = nomai_core::entries::remove_entry(self.db.clone(), *id);
                }
                Bucket::Unchanged => {}
            }
        }
        for id in &plan.gone {
            self.db = nomai_core::entries::remove_entry(self.db.clone(), *id);
        }
        sync_result(&plan)
    }

    fn events_of(&self, type_: &str) -> Vec<&EventHead> {
        self.events.iter().filter(|e| e.type_ == type_).collect()
    }
}

fn note(text: &str) -> BlockInput {
    block("note", text)
}

fn block(type_: &str, text: &str) -> BlockInput {
    BlockInput { type_: type_.into(), text: text.into(), attrs: None }
}

fn image(src: Option<&str>) -> BlockInput {
    BlockInput { attrs: src.map(|s| object(&[("src", s)])), ..block("image", "a caption") }
}

fn noted(title: &str, blocks: Vec<BlockInput>) -> CreateEntry {
    CreateEntry { title: title.into(), blocks, tags: None, attrs: None, source: None }
}

fn object(members: &[(&str, &str)]) -> AttrsValue {
    let mut out = Attrs::new();
    for (k, v) in members {
        out.set(k.to_string(), AttrValue::Text(v.to_string()));
    }
    AttrsValue::Object(out)
}

fn json_object(members: &[(&str, &str)]) -> AttrsValue {
    let mut out = Attrs::new();
    for (k, v) in members {
        out.set(k.to_string(), AttrValue::Json(v.to_string()));
    }
    AttrsValue::Object(out)
}

fn nothing() -> UpdateEntry {
    UpdateEntry { title: None, tags: None, attrs: None, source: None }
}

fn external(id: Id, title: &str, text: &str, now: Timestamp) -> NomaiDoc {
    NomaiDoc {
        format_version: 1,
        id,
        title: title.into(),
        tags: vec![],
        attrs: Attrs::new(),
        source: None,
        created_at: now,
        updated_at: now,
        blocks: vec![Block { type_: BlockType::Note, text: text.into(), attrs: Attrs::new() }],
    }
}

fn phantom() -> Id {
    parse_id("01ARZ3NDEKTSV4RRFFQ69G5FAV").unwrap()
}

#[test]
fn create_round_trips_via_get() {
    let mut svc = Store::new();
    let created = svc
        .create(CreateEntry {
            title: "Hello".into(),
            blocks: vec![note("Body text")],
            tags: Some(vec!["a".into(), "b".into()]),
            attrs: Some(object(&[("k", "v")])),
            source: Some("test".into()),
        })
        .unwrap();
    let fetched = svc.get(created.id).unwrap();
    assert_eq!(format!("{created:?}"), format!("{fetched:?}"));
}

#[test]
fn service_create_defaults_attrs_to_empty_object() {
    let mut svc = Store::new();
    let created = svc.create(noted("t", vec![note("b")])).unwrap();
    assert!(matches!(&created.attrs, AttrsValue::Object(a) if a.members.is_empty()));
    assert!(created.tags.is_empty());
    assert!(created.source.is_none());
}

#[test]
fn service_create_rejects_non_object_attrs() {
    let mut svc = Store::new();
    let attrs = Some(AttrsValue::Other("[1,2,3]".into()));
    let err = svc.create(CreateEntry { attrs, ..noted("t", vec![note("b")]) }).unwrap_err();
    assert!(matches!(err, CoreError::Validation(_)));
}

#[test]
fn create_rejects_empty_blocks() {
    let mut svc = Store::new();
    let err = svc.create(noted("t", vec![])).unwrap_err();
    assert!(matches!(err, CoreError::Validation(_)));
}

#[test]
fn create_rejects_an_unknown_block_type() {
    let mut svc = Store::new();
    let err = svc.create(noted("t", vec![block("definition", "b")])).unwrap_err();
    assert!(matches!(err, CoreError::Validation(m) if m == "unknown block type: definition"));
    assert!(matches!(parse_block_type("image"), Ok(BlockType::Image)));
}

#[test]
fn service_get_returns_not_found_for_unknown_id() {
    let svc = Store::new();
    let err = svc.get(phantom()).unwrap_err();
    assert!(matches!(err, CoreError::NotFound(_)));
}

#[test]
fn update_changes_provided_fields_and_bumps_updated_at() {
    let mut svc = Store::new();
    let created = svc.seed("orig", vec![]);
    let updated = svc
        .update(
            created.id,
            UpdateEntry {
                title: Some("new".into()),
                tags: Some(vec!["x".into()]),
                attrs: Some(object(&[("k2", "v2")])),
                source: Some(Some("src".into())),
            },
        )
        .unwrap();
    assert_eq!(updated.title, "new");
    // Blocks unchanged (update doesn't touch blocks).
    assert_eq!(updated.blocks.len(), 1);
    assert_eq!(updated.blocks[0].text, "body of orig");
    assert_eq!(updated.tags, vec!["x".to_string()]);
    assert_eq!(format!("{:?}", updated.attrs), format!("{:?}", object(&[("k2", "v2")])));
    assert_eq!(updated.source.as_deref(), Some("src"));
    assert!(created.updated_at.is_before(&updated.updated_at));
    assert_eq!(updated.created_at, created.created_at);
}

#[test]
fn update_can_clear_source_to_null() {
    let mut svc = Store::new();
    let source = Some("orig".into());
    let created = svc.create(CreateEntry { source, ..noted("t", vec![note("b")]) }).unwrap();
    let updated =
        svc.update(created.id, UpdateEntry { source: Some(None), ..nothing() }).unwrap();
    assert!(updated.source.is_none());
}

#[test]
fn update_rejects_non_object_attrs() {
    let mut svc = Store::new();
    let created = svc.seed("t", vec![]);
    let attrs = Some(AttrsValue::Other("[1,2]".into()));
    let err = svc.update(created.id, UpdateEntry { attrs, ..nothing() }).unwrap_err();
    assert!(matches!(err, CoreError::Validation(_)));
}

#[test]
fn update_returns_not_found_for_unknown_id() {
    let mut svc = Store::new();
    let err = svc.update(phantom(), nothing()).unwrap_err();
    assert!(matches!(err, CoreError::NotFound(_)));
}

#[test]
fn service_delete_returns_not_found_for_unknown_id() {
    let mut svc = Store::new();
    assert!(matches!(svc.delete(phantom()).unwrap_err(), CoreError::NotFound(_)));
}

#[test]
fn list_returns_all_entries_paginated() {
    let mut svc = Store::new();
    for i in 0..5 {
        svc.seed(&format!("e{i}"), vec![]);
    }
    let q = |offset| EntryListQuery {
        limit: 2,
        offset,
        order: EntryListOrder::CreatedAsc,
        ..Default::default()
    };
    let page1 = svc.list(q(0));
    assert_eq!(page1.items.len(), 2);
    assert_eq!(page1.total, 5);
    let page2 = svc.list(q(2));
    assert_eq!(page2.items.len(), 2);
    assert_ne!(page1.items[0].id, page2.items[0].id);
}

#[test]
fn list_filters_by_tag() {
    let mut svc = Store::new();
    svc.seed("a", vec!["red"]);
    svc.seed("b", vec!["blue"]);
    svc.seed("c", vec!["red", "blue"]);
    let result = svc.list(EntryListQuery {
        tag: Some("red".into()),
        order: EntryListOrder::CreatedAsc,
        ..Default::default()
    });
    assert_eq!(result.items.len(), 2);
    assert_eq!(result.total, 2);
}

#[test]
fn an_entry_is_listed_for_each_time_it_has_the_tag() {
    let mut svc = Store::new();
    svc.seed("a", vec!["red", "red"]);
    let q = EntryListQuery { tag: Some("red".into()), ..Default::default() };
    let result = svc.list(q);
    assert_eq!((result.items.len(), result.total), (2, 2));
}

#[test]
fn list_filters_transient_true_returns_only_short_term() {
    let mut svc = Store::new();
    svc.seed("long-a", vec![]);
    svc.seed_transient("short-b", true);
    svc.seed_transient("short-c", true);
    let result = svc.list(EntryListQuery { transient: Some(true), ..Default::default() });
    let titles: Vec<_> = result.items.iter().map(|e| e.title.as_str()).collect();
    assert_eq!(result.total, 2);
    assert!(titles.contains(&"short-b"));
    assert!(titles.contains(&"short-c"));
    assert!(!titles.contains(&"long-a"));
}

#[test]
fn list_filters_transient_false_returns_only_long_term() {
    let mut svc = Store::new();
    svc.seed("long-a", vec![]);
    svc.seed_transient("short-b", true);
    let result = svc.list(EntryListQuery { transient: Some(false), ..Default::default() });
    let titles: Vec<_> = result.items.iter().map(|e| e.title.as_str()).collect();
    assert_eq!(result.total, 1);
    assert!(titles.contains(&"long-a"));
    assert!(!titles.contains(&"short-b"));
}

#[test]
fn list_without_transient_filter_returns_all() {
    let mut svc = Store::new();
    svc.seed("long-a", vec![]);
    svc.seed_transient("short-b", true);
    assert_eq!(svc.list(EntryListQuery::default()).total, 2);
}

#[test]
fn benchmark_entries_are_hidden_and_cleanup_preserves_delete_events() {
    let mut svc = Store::new();
    let ordinary =
        svc.create(noted("ordinary visible", vec![note("ordinary visible marker")])).unwrap();
    let mut attrs = Attrs::new();
    attrs.set("transient".into(), AttrValue::Json("true".into()));
    attrs.set("benchmark_run_id".into(), AttrValue::Text("run-1".into()));
    attrs.set("benchmark_case_id".into(), AttrValue::Text("case-1".into()));
    let temporary = svc
        .create(CreateEntry {
            attrs: Some(AttrsValue::Object(attrs)),
            ..noted("benchmark hidden", vec![note("benchmark hidden marker")])
        })
        .unwrap();
    let ordinary_block = ordinary.blocks[0].id;
    let temporary_block = temporary.blocks[0].id;
    let ordinary_chunk = list_chunks(&svc.db, ordinary_block, false).items[0].id;
    let temporary_chunk = list_chunks(&svc.db, temporary_block, true).items[0].id;

    assert!(svc.get(ordinary.id).is_ok());
    assert!(matches!(svc.get(temporary.id), Err(CoreError::NotFound(_))));
    assert_eq!(svc.list(EntryListQuery::default()).total, 1);
    assert!(get_block(&svc.db, ordinary_block, false).is_ok());
    assert!(matches!(get_block(&svc.db, temporary_block, false), Err(CoreError::NotFound(_))));
    assert_eq!(list_blocks(&svc.db, temporary.id, false).total, 0);
    assert!(get_chunk(&svc.db, ordinary_chunk, false).is_ok());
    assert!(matches!(get_chunk(&svc.db, temporary_chunk, false), Err(CoreError::NotFound(_))));
    assert_eq!(list_chunks(&svc.db, temporary_block, false).total, 0);

    let visible = get_entry(&svc.db, temporary.id, true).unwrap();
    assert_eq!(visible.blocks.len(), 1);
    let q = EntryListQuery { include_blocks: Some(true), ..Default::default() };
    let listed = list_entries(&svc.db, &q, true);
    let listed_temporary = listed.items.iter().find(|entry| entry.id == temporary.id).unwrap();
    assert_eq!(listed_temporary.blocks.len(), 1);

    let fulltext = svc.search("marker", None, None);
    assert_eq!(fulltext.len(), 1);
    assert_eq!(fulltext[0].entry.id, ordinary.id);
    let one = 1.0f32.to_bits();
    let nearest = vec![(temporary_chunk, one), (ordinary_chunk, one)];
    let filter = SearchFilter { block_type: None, tag: None, include_benchmark: false };
    let semantic = semantic_search(&svc.db, &nearest, &filter);
    assert_eq!(semantic.len(), 1);
    assert_eq!(semantic[0].entry_id, ordinary.id);

    assert!(is_benchmark_entry(&svc.db.entries, temporary.id));
    assert!(!is_benchmark_entry(&svc.db.entries, ordinary.id));
    let doomed = benchmark_ids(&svc.db.entries);
    assert_eq!(doomed, vec![temporary.id]);
    for id in doomed {
        svc.delete(id).unwrap();
    }
    assert!(svc.get(ordinary.id).is_ok());
    assert!(!is_benchmark_entry(&svc.db.entries, temporary.id));
    let deleted = svc.events_of("entry.deleted");
    assert_eq!(deleted.iter().filter(|e| e.target_id == temporary.id).count(), 1);
}

#[test]
fn semantic_search_filters_by_block_type() {
    let mut svc = Store::new();
    let a = svc.create(noted("a", vec![block("claim", "claim text")])).unwrap();
    let b = svc.create(noted("b", vec![block("note", "note text")])).unwrap();
    let claim_chunk = list_chunks(&svc.db, a.blocks[0].id, false).items[0].id;
    let note_chunk = list_chunks(&svc.db, b.blocks[0].id, false).items[0].id;
    let nearest = vec![(claim_chunk, 0.9f32.to_bits()), (note_chunk, 0.9f32.to_bits())];
    // Filter by block_type="claim": only the claim chunk matches.
    let filter =
        SearchFilter { block_type: Some("claim".into()), tag: None, include_benchmark: false };
    let hits = semantic_search(&svc.db, &nearest, &filter);
    assert_eq!(hits.len(), 1);
    assert_eq!(hits[0].chunk.id, claim_chunk);
}

#[test]
fn semantic_search_returns_empty_when_no_embeddings() {
    let mut svc = Store::new();
    let entry = svc.seed("t", vec![]);
    assert_eq!(list_chunks(&svc.db, entry.blocks[0].id, false).total, 1);
    let filter = SearchFilter { block_type: None, tag: None, include_benchmark: false };
    assert!(semantic_search(&svc.db, &Vec::new(), &filter).is_empty());
}

#[test]
fn list_combines_transient_and_tag_filters() {
    let mut svc = Store::new();
    svc.seed_transient("s-red", true);
    svc.create(CreateEntry {
        tags: Some(vec!["red".into()]),
        attrs: Some(json_object(&[("transient", "true")])),
        ..noted("s-tagged", vec![note("x")])
    })
    .unwrap();
    let result = svc.list(EntryListQuery {
        tag: Some("red".into()),
        transient: Some(true),
        ..Default::default()
    });
    assert_eq!(result.total, 1);
    assert_eq!(result.items[0].title, "s-tagged");
}

#[test]
fn purge_transient_dry_run_deletes_nothing() {
    let mut svc = Store::new();
    svc.seed("long", vec![]);
    svc.seed_transient("short-1", true);
    svc.seed_transient("short-2", true);
    let result = svc.purge(None, true);
    assert!(result.dry_run);
    assert_eq!(result.total_candidates, 2);
    assert_eq!(result.candidates.len(), 2);
    assert!(!result.truncated);
    assert!(result.deleted_ids.is_empty());
    assert_eq!(svc.list(EntryListQuery::default()).total, 3);
}

#[test]
fn purge_transient_real_delete_removes_only_transient() {
    let mut svc = Store::new();
    let long = svc.seed("long", vec![]);
    let s1 = svc.seed_transient("short-1", true);
    let _s2 = svc.seed_transient("short-2", true);
    let result = svc.purge(None, false);
    assert!(!result.dry_run);
    assert_eq!(result.deleted_ids.len(), 2);
    assert!(result.failed.is_empty());
    let remaining = svc.list(EntryListQuery::default());
    assert_eq!(remaining.total, 1);
    assert_eq!(remaining.items[0].id, long.id);
    assert!(svc.get(s1.id).is_err());
}

#[test]
fn a_failed_deletion_is_reported_beside_the_others() {
    let mut svc = Store::new();
    let a = svc.seed_transient("a", true);
    let b = svc.seed_transient("b", true);
    let rows = transient_candidates(&svc.db.entries, None);
    let result = purge_result(&rows, &vec![Some("busy".into()), None]);
    assert_eq!(result.deleted_ids, vec![b.id]);
    assert_eq!(result.failed, vec![(a.id, "busy".to_string())]);
}

#[test]
fn purge_transient_emits_entry_deleted_events() {
    let mut svc = Store::new();
    svc.seed_transient("short", true);
    let before = svc.events.len();
    svc.purge(None, false);
    assert_eq!(svc.events.len() - before, 1);
    assert!(svc.events.iter().skip(before).any(|event| event.type_ == "entry.deleted"));
}

#[test]
fn purge_transient_respects_older_than_filter() {
    let mut svc = Store::new();
    svc.seed_transient("a", true);
    svc.seed_transient("b", true);
    // Nothing was created before a year ago.
    let now = svc.now();
    let cutoff = Timestamp { seconds: now.seconds - 365 * 86400, nanos: 0 };
    let old = svc.purge(Some(cutoff), true);
    assert_eq!(old.total_candidates, 0);
    // None: all that are transient
    let all = svc.purge(None, true);
    assert_eq!(all.total_candidates, 2);
}

#[test]
fn purge_transient_empty_set_is_noop() {
    let mut svc = Store::new();
    svc.seed("long", vec![]);
    let dry = svc.purge(None, true);
    assert_eq!(dry.total_candidates, 0);
    let real = svc.purge(None, false);
    assert_eq!(real.deleted_ids.len(), 0);
    assert_eq!(svc.list(EntryListQuery::default()).total, 1);
}

#[test]
fn purge_transient_preview_truncates_with_true_count() {
    let mut svc = Store::new();
    for i in 0..(PURGE_PREVIEW_LIMIT + 10) {
        svc.seed_transient(&format!("s{i}"), true);
    }
    let result = svc.purge(None, true);
    assert_eq!(result.candidates.len(), PURGE_PREVIEW_LIMIT);
    assert!(result.truncated);
    assert_eq!(result.total_candidates as usize, PURGE_PREVIEW_LIMIT + 10);
}

#[test]
fn transient_ids_among_returns_only_transient_subset() {
    let mut svc = Store::new();
    let long = svc.seed("long", vec![]);
    let short = svc.seed_transient("short", true);
    let set = transient_ids_among(&svc.db.entries, &vec![long.id, short.id]);
    assert_eq!(set.len(), 1);
    assert!(set.contains(&short.id));
}

#[test]
fn list_sets_has_more_true_when_more_entries_exist() {
    let mut svc = Store::new();
    for i in 0..3 {
        svc.create(noted(&format!("t{i}"), vec![note("x")])).unwrap();
    }
    let result = svc.list(EntryListQuery { limit: 2, offset: 0, ..Default::default() });
    assert_eq!(result.items.len(), 2);
    assert_eq!(result.total, 3);
    assert!(result.has_more, "has_more must be true when total > offset + returned");
}

#[test]
fn list_sets_has_more_false_when_all_returned() {
    let mut svc = Store::new();
    for i in 0..3 {
        svc.create(noted(&format!("t{i}"), vec![note("x")])).unwrap();
    }
    let result = svc.list(EntryListQuery { limit: 10, offset: 0, ..Default::default() });
    assert_eq!(result.items.len(), 3);
    assert_eq!(result.total, 3);
    assert!(!result.has_more);
}

#[test]
fn list_has_more_with_offset_pagination() {
    let mut svc = Store::new();
    for i in 0..5 {
        svc.create(noted(&format!("t{i}"), vec![note("x")])).unwrap();
    }
    let p1 = svc.list(EntryListQuery { limit: 2, offset: 0, ..Default::default() });
    assert_eq!(p1.items.len(), 2);
    assert!(p1.has_more);
    let p3 = svc.list(EntryListQuery { limit: 2, offset: 4, ..Default::default() });
    assert_eq!(p3.items.len(), 1);
    assert!(!p3.has_more);
}

#[test]
fn fulltext_returns_relevant_entries_ranked() {
    let mut svc = Store::new();
    svc.create(noted("Rust guide", vec![note("Learn rust programming language")])).unwrap();
    svc.create(noted("Cooking", vec![note("How to bake bread")])).unwrap();
    let hits = svc.search("rust", None, None);
    assert_eq!(hits.len(), 1);
    assert_eq!(hits[0].entry.title, "Rust guide");
    assert!(f32::from_bits(hits[0].score) > 0.0);
}

#[test]
fn fulltext_returns_empty_when_no_match() {
    let mut svc = Store::new();
    svc.seed("t", vec![]);
    assert!(svc.search("nonexistentterm12345", None, None).is_empty());
}

#[test]
fn delete_removes_entry_and_cascades_fts() {
    let mut svc = Store::new();
    let e = svc.seed("t", vec![]);
    svc.create(noted("title", vec![note("needle in haystack")])).unwrap();
    let stale = svc.matches("body");
    svc.delete(e.id).unwrap();
    assert!(svc.get(e.id).is_err());
    let hits = svc.search("needle", None, None);
    assert!(hits.iter().all(|h| h.entry.id != e.id));
    // A match of an entry that is gone is no hit.
    let filter = SearchFilter { block_type: None, tag: None, include_benchmark: false };
    assert!(fulltext_search(&svc.db, &stale, &filter, "body", 10).is_empty());
}

#[test]
fn fulltext_search_uses_fts_blocks_with_type_filter() {
    let mut svc = Store::new();
    let blocks = vec![block("claim", "Earth orbits the sun"), note("remember to orbit")];
    svc.create(noted("mixed", blocks)).unwrap();
    assert_eq!(svc.search("orbit", None, None).len(), 1);
    assert_eq!(svc.search("orbit", Some("note"), None).len(), 1);
    assert_eq!(svc.search("orbit", Some("claim"), None).len(), 1);
    assert!(svc.search("orbit", Some("evidence"), None).is_empty());
}

#[test]
fn fulltext_search_filters_by_tag() {
    let mut svc = Store::new();
    let tagged = |title: &str, tags: Option<Vec<String>>| CreateEntry {
        tags,
        ..noted(title, vec![note("orbit dynamics")])
    };
    svc.create(tagged("alpha", Some(vec!["alpha".into(), "shared".into()]))).unwrap();
    svc.create(tagged("beta", Some(vec!["beta".into()]))).unwrap();
    svc.create(tagged("notags", None)).unwrap();
    let hits = svc.search("orbit", None, Some("alpha"));
    assert_eq!(hits.len(), 1);
    assert_eq!(hits[0].entry.title, "alpha");
    let shared = svc.search("orbit", None, Some("shared"));
    assert_eq!(shared.len(), 1);
    assert_eq!(shared[0].entry.title, "alpha");
    assert!(svc.search("orbit", None, Some("zzz")).is_empty());
    assert_eq!(svc.search("orbit", None, None).len(), 3);
    let short = svc.search("or", None, Some("alpha"));
    assert_eq!(short.len(), 1);
    assert_eq!(short[0].entry.title, "alpha");
    let combo = svc.search("orbit", Some("note"), Some("alpha"));
    assert_eq!(combo.len(), 1);
    assert_eq!(combo[0].entry.title, "alpha");
}

#[test]
fn fulltext_short_query_falls_back_to_like() {
    let mut svc = Store::new();
    svc.create(noted("t", vec![note("Rust 入门指南")])).unwrap();
    // "入门" is 2 chars: matched by pattern.
    assert!(!uses_index("入门"));
    assert_eq!(pattern_for("入门"), "%入门%");
    assert_eq!(svc.search("入门", None, None).len(), 1, "2-char query falls back to LIKE");
}

#[test]
fn fulltext_english_still_works() {
    let mut svc = Store::new();
    svc.create(noted("t", vec![note("Rust is a systems programming language")])).unwrap();
    assert!(uses_index("Rust"));
    assert_eq!(svc.search("Rust", None, None).len(), 1, "English >=3 chars matches via trigram");
}

#[test]
fn fulltext_block_type_filter_both_paths() {
    let mut svc = Store::new();
    let blocks = vec![block("claim", "shared keyword alpha"), note("shared keyword beta")];
    svc.create(noted("t", blocks)).unwrap();
    assert_eq!(svc.search("keyword", Some("claim"), None).len(), 1);
    let none = svc.search("sh", Some("evidence"), None);
    assert!(none.is_empty(), "LIKE path honors block_type filter");
}

#[test]
fn fulltext_like_escapes_wildcards() {
    assert!(!uses_index("0%"));
    assert_eq!(pattern_for("0%"), "%0\\%%");
    assert_eq!(pattern_for("a_\\"), "%a\\_\\\\%");
}

#[test]
fn fulltext_dedupes_entries_across_blocks() {
    let mut svc = Store::new();
    let blocks = vec![note("shared keyword alpha"), note("shared keyword beta")];
    svc.create(noted("t", blocks)).unwrap();
    assert_eq!(svc.search("keyword", None, None).len(), 1, "FTS path dedupes by entry");
}

#[test]
fn fulltext_result_carries_match_evidence() {
    let mut svc = Store::new();
    let blocks = vec![note("Earth orbit one"), block("claim", "Earth orbit two")];
    svc.create(noted("orbits", blocks)).unwrap();
    svc.create(noted("unrelated", vec![note("completely different topic")])).unwrap();
    let hits = svc.search("orbit", None, None);
    assert_eq!(hits.len(), 1, "only the orbit entry matches");
    let h = &hits[0];
    assert_eq!(h.match_count, 2, "both blocks matched: {}", h.match_count);
    assert_eq!(h.matched_block_ids.len(), 2);
    assert!(h.best_match.snippet.contains("**orbit**"));
    assert!(!h.best_match.block_type.is_empty());
}

#[test]
fn fulltext_like_path_carries_match_evidence() {
    let mut svc = Store::new();
    svc.create(noted("short", vec![note("Rust 入门指南")])).unwrap();
    let hits = svc.search("入门", None, None);
    assert_eq!(hits.len(), 1);
    let h = &hits[0];
    assert_eq!(h.match_count, 1);
    assert_eq!(h.matched_block_ids.len(), 1);
    assert!(h.best_match.snippet.contains("**入门**"));
    assert_eq!(f32::from_bits(h.score), 0.0);
}

#[test]
fn fulltext_match_count_caps_block_ids_but_keeps_true_count() {
    let mut svc = Store::new();
    // 70 blocks all containing "token": match_count=70, ids capped at 64.
    let blocks: Vec<_> = (0..70).map(|_| note("kw token")).collect();
    svc.create(noted("many", blocks)).unwrap();
    let hits = svc.search("token", None, None);
    let h = &hits[0];
    assert_eq!(h.match_count, 70, "true count preserved");
    assert_eq!(h.matched_block_ids.len(), 64, "ids capped at 64");
}

#[test]
fn a_match_that_cannot_be_read_is_passed_over() {
    let row = read_row("NOT-A-ULID", &id_text(1), "note".into(), "x".into(), 0);
    assert_eq!(row.entry_id, None);
    let svc = Store::new();
    let filter = SearchFilter { block_type: None, tag: None, include_benchmark: false };
    assert!(fulltext_search(&svc.db, &vec![row], &filter, "x", 10).is_empty());
}

#[test]
fn list_with_include_blocks_populates_blocks() {
    let mut svc = Store::new();
    svc.create(noted("t", vec![note("first"), block("claim", "second")])).unwrap();
    // Default: blocks empty.
    let result = svc.list(EntryListQuery { include_blocks: None, ..Default::default() });
    assert_eq!(result.items.len(), 1);
    assert!(result.items[0].blocks.is_empty());
    // With include_blocks=true: blocks populated.
    let result = svc.list(EntryListQuery { include_blocks: Some(true), ..Default::default() });
    assert_eq!(result.items.len(), 1);
    assert_eq!(result.items[0].blocks.len(), 2);
    assert_eq!(result.items[0].blocks[0].text, "first");
    assert_eq!(result.items[0].blocks[1].text, "second");
}

#[test]
fn create_emits_entry_created_event_with_full_snapshot() {
    let mut svc = Store::new();
    let created = svc
        .create(CreateEntry {
            tags: Some(vec!["a".into()]),
            attrs: Some(object(&[("k", "v")])),
            source: Some("test".into()),
            ..noted("Hello", vec![note("World")])
        })
        .unwrap();
    let events = svc.events_of("entry.created");
    assert_eq!(events.len(), 1);
    assert_eq!(events[0].target_type, "entry");
    assert_eq!(events[0].target_id, created.id);
    // The entry is the event's payload.
    assert_eq!(created.title, "Hello");
    assert_eq!(created.blocks[0].text, "World");
}

#[test]
fn update_emits_entry_updated_event_with_after_snapshot() {
    let mut svc = Store::new();
    let created = svc.create(noted("orig", vec![note("b")])).unwrap();
    let updated =
        svc.update(created.id, UpdateEntry { title: Some("new".into()), ..nothing() }).unwrap();
    let events = svc.events_of("entry.updated");
    assert_eq!(events.len(), 1);
    assert_eq!(events[0].target_id, created.id);
    assert_eq!(updated.title, "new");
    // Blocks unchanged from created.
    assert_eq!(updated.blocks[0].text, "b");
}

#[test]
fn delete_emits_entry_deleted_event_with_before_snapshot() {
    let mut svc = Store::new();
    let created = svc.create(noted("to be deleted", vec![note("body")])).unwrap();
    let snapshot = svc.delete(created.id).unwrap();
    let events = svc.events_of("entry.deleted");
    assert_eq!(events.len(), 1);
    assert_eq!(events[0].target_id, created.id);
    assert_eq!(snapshot.title, "to be deleted");
    assert_eq!(snapshot.blocks[0].text, "body");
}

#[test]
fn create_writes_nomai_file_to_content_store() {
    let mut svc = Store::new();
    let tags = Some(vec!["x".into()]);
    let entry =
        svc.create(CreateEntry { tags, ..noted("fs test", vec![note("body text")]) }).unwrap();
    let (_, text, _) = svc.files.iter().find(|f| f.0 == entry.id).unwrap();
    let doc = parse(text).unwrap();
    assert_eq!(doc.title, "fs test");
    assert_eq!(doc.tags, vec!["x".to_string()]);
    assert_eq!(doc.blocks.len(), 1);
    assert_eq!(doc.blocks[0].text, "body text\n");
}

#[test]
fn sync_from_fs_picks_up_newly_dropped_file() {
    let mut svc = Store::new();
    svc.create(noted("T", vec![note("x")])).unwrap();
    // A file that the index does not know.
    let new_id = svc.id();
    let doc = external(new_id, "External", "from fs\n", svc.now());
    svc.write_file(new_id, &doc);
    assert!(svc.get(new_id).is_err());
    let result = svc.sync();
    assert_eq!(result.added, 1);
    assert_eq!(result.unchanged, 1);
    assert_eq!(result.reindexed_ids, vec![new_id]);
    let fetched = svc.get(new_id).unwrap();
    assert_eq!(fetched.title, "External");
    assert_eq!(fetched.blocks.len(), 1);
    assert_eq!(fetched.blocks[0].text, "from fs");
}

#[test]
fn sync_from_fs_removes_orphan_index_rows() {
    let mut svc = Store::new();
    let entry = svc.create(noted("T", vec![note("x")])).unwrap();
    // The file goes, its directory stays.
    let mut found = svc.found();
    found[0].mtime = None;
    let plan = sync_from_fs(&found, &svc.indexed());
    assert_eq!(plan.steps, vec![(entry.id, Bucket::Removed)]);
    assert_eq!(sync_result(&plan).removed, 1);
    // The directory goes too.
    svc.files.clear();
    let result = svc.sync();
    assert_eq!(result.removed, 1);
    assert!(svc.get(entry.id).is_err());
}

#[test]
fn sync_from_fs_reindexes_when_mtime_changes() {
    let mut svc = Store::new();
    let entry = svc.create(noted("Original", vec![note("x")])).unwrap();
    let doc = external(entry.id, "Updated", "new\n", svc.now());
    svc.write_file(entry.id, &doc);
    let result = svc.sync();
    assert_eq!(result.updated, 1);
    let fetched = svc.get(entry.id).unwrap();
    assert_eq!(fetched.title, "Updated");
    assert_eq!(fetched.blocks[0].text, "new");
    // A second run finds nothing to do.
    assert_eq!(svc.sync().unchanged, 1);
}

#[test]
fn a_sync_leaves_an_index_that_mirrors_the_files() {
    let mut svc = Store::new();
    let kept = svc.create(noted("Kept", vec![note("x")])).unwrap();
    let stale = svc.create(noted("Stale", vec![note("x")])).unwrap();
    let gone = svc.create(noted("Gone", vec![note("x")])).unwrap();
    let new_id = svc.id();
    svc.files.retain(|f| f.0 != gone.id);
    let doc = external(stale.id, "Fresh", "y\n", svc.now());
    svc.write_file(stale.id, &doc);
    let doc = external(new_id, "New", "z\n", svc.now());
    svc.write_file(new_id, &doc);
    let first = svc.sync();
    assert_eq!((first.added, first.updated, first.removed, first.unchanged), (1, 1, 1, 1));
    assert_eq!(first.reindexed_ids.len() as u64, first.added + first.updated);
    let mut ids: Vec<Id> = svc.indexed().iter().map(|f| f.id).collect();
    ids.sort();
    let mut files = vec![kept.id, stale.id, new_id];
    files.sort();
    assert_eq!(ids, files);
    let second = svc.sync();
    assert_eq!((second.added, second.updated, second.removed), (0, 0, 0));
    assert!(second.reindexed_ids.is_empty());
    assert_eq!(second.unchanged, 3);
}

#[test]
fn a_smaller_limit_only_cuts_the_hits() {
    let mut svc = Store::new();
    for title in ["a", "b", "c"] {
        svc.create(noted(title, vec![note("one word"), note("same word")])).unwrap();
    }
    let filter = SearchFilter { block_type: None, tag: None, include_benchmark: false };
    let rows = svc.matches("word");
    let all = dedupe_hits(&svc.db, &rows, &filter, 10);
    let two = dedupe_hits(&svc.db, &rows, &filter, 2);
    assert_eq!((all.len(), two.len()), (3, 2));
    assert_eq!(format!("{:?}", &all[..2]), format!("{two:?}"));
    assert_eq!(two[1].match_count, 2);
}

#[test]
fn rebuild_index_clears_and_repopulates() {
    let mut svc = Store::new();
    let entry1 = svc.seed("first", vec![]);
    let entry2 = svc.seed("second", vec![]);
    // The index loses a block.
    svc.db.blocks.retain(|b| b.entry_id != entry1.id);
    assert!(svc.get(entry1.id).unwrap().blocks.is_empty());
    svc.db = ContentDb {
        entries: Vec::new(),
        blocks: Vec::new(),
        chunks: Vec::new(),
        links: Vec::new(),
    };
    let ids: Vec<Id> = svc.files.iter().map(|f| f.0).collect();
    let outcomes: Vec<Result<(), CoreError>> = ids.iter().map(|id| svc.reindex(*id)).collect();
    let result = rebuild_result(&ids, &outcomes);
    assert_eq!(result.reindexed, 2);
    assert!(result.errors.is_empty(), "{:?}", result.errors);
    let fetched = svc.get(entry1.id).unwrap();
    assert!(!fetched.blocks.is_empty());
    assert_eq!(fetched.blocks[0].text, "body of first");
    let fetched2 = svc.get(entry2.id).unwrap();
    assert_eq!(fetched2.blocks[0].text, "body of second");
    let indexed = svc.indexed();
    let times: Vec<(Id, Timestamp)> =
        indexed.iter().map(|f| (f.id, f.mtime.as_ref().unwrap().time.unwrap())).collect();
    let files: Vec<(Id, Timestamp)> = svc.files.iter().map(|f| (f.0, f.2)).collect();
    assert_eq!(times, files);
}

#[test]
fn a_directory_in_two_spellings_settles_too() {
    let mut svc = Store::new();
    let id = svc.id();
    let doc = external(id, "Twice", "x\n", svc.now());
    svc.write_file(id, &doc);
    let mut found = svc.found();
    found.push(found[0]);
    let plan = sync_from_fs(&found, &svc.indexed());
    assert_eq!(plan.steps, vec![(id, Bucket::Added), (id, Bucket::Added)]);
    svc.reindex(id).unwrap();
    svc.reindex(id).unwrap();
    let again = sync_result(&sync_from_fs(&found, &svc.indexed()));
    assert_eq!((again.added, again.updated, again.removed, again.unchanged), (0, 0, 0, 2));
}

#[test]
fn rebuild_index_reports_per_entry_errors() {
    let mut svc = Store::new();
    let good = svc.seed("good", vec![]);
    let bad = svc.seed("bad", vec![]);
    svc.files[1].1 = "this is not a valid .nomai header\n".into();
    let ids: Vec<Id> = svc.files.iter().map(|f| f.0).collect();
    let outcomes: Vec<Result<(), CoreError>> = ids.iter().map(|id| svc.reindex(*id)).collect();
    let result = rebuild_result(&ids, &outcomes);
    assert_eq!(result.reindexed, 1, "one good entry re-indexed");
    assert_eq!(result.errors.len(), 1, "one entry failed to parse");
    assert!(result.errors[0].contains(&id_text(bad.id)));
    let fetched = svc.get(good.id).unwrap();
    assert!(!fetched.blocks.is_empty());
}

#[test]
fn export_to_fs_generates_nomai_for_missing_files() {
    let mut svc = Store::new();
    let entry = svc.create(noted("Has File", vec![note("x")])).unwrap();
    // An entry that has no file.
    let orphan_id = svc.id();
    let now = svc.now();
    svc.db.entries.push(EntryRow {
        id: orphan_id,
        title: "Orphan".into(),
        tags: Vec::new(),
        attrs: AttrsValue::Object(Attrs::new()),
        source: None,
        fs_path: None,
        fs_mtime: None,
        created_at: now,
        updated_at: now,
    });
    let ids: Vec<Id> = svc.db.entries.iter().map(|e| e.id).collect();
    let mut outcomes = Vec::new();
    for id in &ids {
        let fs_path = svc.db.entries.iter().find(|e| e.id == *id).unwrap().fs_path.clone();
        let exists = svc.files.iter().any(|f| f.0 == *id);
        if needs_export(&fs_path, exists) {
            let doc = document_of_entry(&get_entry(&svc.db, *id, true).unwrap());
            svc.write_file(*id, &doc);
            outcomes.push(ExportOutcome::Exported);
        } else {
            outcomes.push(ExportOutcome::Skipped);
        }
    }
    let result = export_result(&ids, &outcomes);
    assert_eq!(result.exported, 1, "orphan should be exported");
    assert_eq!(result.skipped, 1, "entry-with-file should be skipped");
    assert!(result.errors.is_empty(), "{:?}", result.errors);
    assert!(svc.files.iter().any(|f| f.0 == orphan_id));
    assert_eq!(ids, vec![entry.id, orphan_id]);
}

#[test]
fn an_export_that_fails_is_reported() {
    let ids: Vec<Id> = vec![1, 2, 3];
    let outcomes = vec![
        ExportOutcome::GetFailed(CoreError::NotFound(1)),
        ExportOutcome::WriteFailed(CoreError::Io("full".into())),
        ExportOutcome::UpdateFailed(CoreError::Storage("busy".into())),
    ];
    let result = export_result(&ids, &outcomes);
    assert_eq!(result.exported, 0);
    assert_eq!(result.skipped, 0);
    assert_eq!(result.errors.len(), 3);
    assert!(result.errors[1].contains("io error: full"));
}

#[test]
fn verify_fs_reports_drift_without_mutating() {
    let mut svc = Store::new();
    let entry = svc.create(noted("T", vec![note("x")])).unwrap();
    let new_id = svc.id();
    let doc = external(new_id, "Orphan", "fs-only\n", svc.now());
    svc.write_file(new_id, &doc);
    let result = verify_fs(&svc.found(), &svc.indexed());
    assert_eq!(result.consistent, 1, "entry with matching mtime");
    assert_eq!(result.fs_only, 1, "orphan FS file");
    assert_eq!(result.db_only, 0);
    assert_eq!(result.stale_mtime, 0);
    assert!(svc.get(new_id).is_err(), "verify_fs should not index the orphan");
    assert!(svc.get(entry.id).is_ok(), "existing entry untouched");
}

#[test]
fn verify_fs_reports_db_only_when_fs_file_missing() {
    let mut svc = Store::new();
    let entry = svc.create(noted("T", vec![note("x")])).unwrap();
    svc.files.clear();
    let result = verify_fs(&svc.found(), &svc.indexed());
    assert_eq!(result.db_only, 1, "index row with no FS directory");
    assert_eq!(result.fs_only, 0);
    assert_eq!(result.consistent, 0);
    assert_eq!(result.stale_mtime, 0);
    assert!(svc.get(entry.id).is_ok(), "verify_fs should not delete");
}

#[test]
fn verify_fs_reports_stale_mtime_when_file_changed() {
    let mut svc = Store::new();
    let entry = svc.create(noted("T", vec![note("x")])).unwrap();
    let doc = external(entry.id, "T2", "new\n", svc.now());
    svc.write_file(entry.id, &doc);
    let result = verify_fs(&svc.found(), &svc.indexed());
    assert_eq!(result.stale_mtime, 1, "file changed since indexing");
    assert_eq!(result.consistent, 0);
    assert_eq!(result.fs_only, 0);
    assert_eq!(result.db_only, 0);
    assert_eq!(svc.get(entry.id).unwrap().title, "T", "verify_fs should not reindex");
}

#[test]
fn write_attachments_and_validate_writes_and_accepts_image_src() {
    let files = vec!["sunset.png".to_string()];
    assert!(check_source("image", &Some("sunset.png".into()), &files).is_ok());
}

#[test]
fn validate_rejects_image_block_missing_src() {
    let err = check_source("image", &None, &Vec::new()).unwrap_err();
    assert!(
        matches!(err, CoreError::Validation(ref m) if m == "image block missing required attr: src")
    );
}

#[test]
fn validate_rejects_declared_source_not_found() {
    let err = check_source("image", &Some("ghost.png".into()), &Vec::new()).unwrap_err();
    assert!(
        matches!(err, CoreError::Validation(ref m) if m.contains("declared source not found: ghost.png"))
    );
}

#[test]
fn validate_skips_url_src_for_source_blocks() {
    let url = Some("https://nasa.gov/orbits".to_string());
    check_source("source", &url, &Vec::new()).unwrap();
}

#[test]
fn validate_accepts_pre_existing_sibling_not_in_attachments() {
    let files = vec!["prior.pdf".to_string()];
    check_source("source", &Some("prior.pdf".into()), &files).unwrap();
}

#[test]
fn create_writes_attachments_and_image_src_resolves() {
    let mut svc = Store::new();
    let entry = svc
        .create_with(noted("with image", vec![image(Some("photo.png"))]), &["photo.png"])
        .unwrap();
    assert_eq!(svc.get(entry.id).unwrap().title, "with image");
}

#[test]
fn create_rolls_back_when_image_block_missing_src() {
    let mut svc = Store::new();
    let err = svc.create(noted("bad", vec![image(None)])).unwrap_err();
    assert!(
        matches!(err, CoreError::Validation(ref m) if m == "image block missing required attr: src")
    );
    // Entry was never committed.
    assert!(svc.list(EntryListQuery::default()).items.is_empty());
}

#[test]
fn create_rolls_back_when_declared_source_not_found() {
    let mut svc = Store::new();
    let err = svc.create(noted("bad", vec![image(Some("missing.png"))])).unwrap_err();
    assert!(
        matches!(err, CoreError::Validation(ref m) if m.contains("declared source not found: missing.png"))
    );
    assert!(svc.list(EntryListQuery::default()).items.is_empty());
}

#[test]
fn create_without_attachments_unchanged_for_text_blocks() {
    let mut svc = Store::new();
    let entry = svc.create(noted("plain", vec![note("just text")])).unwrap();
    assert_eq!(svc.get(entry.id).unwrap().blocks.len(), 1);
}
