use nomai_core::affinity_merge::AffinityStore;
use nomai_core::entry_signals::{entry_memory_signals, EntryCreated, SignalBasis};
use nomai_core::error::CoreError;
use nomai_core::feedback::{
    apply_feedback, apply_feedback_for_embedding, apply_feedback_with_hash, ActiveEmbedding,
};
use nomai_core::float_bits::{decode_vector, encode_vector};
use nomai_core::hashing::query_hash;
use nomai_core::ids::Id;
use nomai_core::memory_model::{
    AffinityHit, CreateSearchSession, FeedbackResult, FeedbackTarget, MemoryPolicy,
    SearchResultTarget,
};
use nomai_core::ranking::{
    affinity_candidates, choose_hits, lookup_for, near_enough, rank_affinities, AffinityFilter,
    BlockFacts, Candidate, Catalog, EntryFacts, Lookup,
};
use nomai_core::reconcile::{
    reconcile_content_references, remove_stale_affinity_vectors, SignalReconcileResult,
};
use nomai_core::reembedding::{list_affinities_for_reembedding, replace_affinity_vectors};
use nomai_core::sessions::{
    create_search_session, purge_expired_sessions, session_expiry, Signals,
};
use nomai_core::signal_cleanup::{
    degrade_block_precision, degrade_chunk_precision, delete_entry_signals,
};
use nomai_core::signals::{Affinity, AffinityVector, ContentIndex, Moment, Session, SessionResult};
use nomai_core::time::Timestamp;

type Precision = (Option<Id>, Option<Id>);

fn floats(values: &[f32]) -> Vec<u32> {
    values.iter().map(|v| v.to_bits()).collect()
}

fn bytes(values: &[f32]) -> Vec<u8> {
    values.iter().flat_map(|v| v.to_le_bytes()).collect()
}

fn policy_with_cap(max_reinforcements: u8) -> MemoryPolicy {
    let bits = |values: &[f64]| values.iter().map(|v| v.to_bits()).collect::<Vec<u64>>();
    let mut policy = MemoryPolicy { max_reinforcements, ..MemoryPolicy::default() };
    match max_reinforcements {
        1 => {
            policy.entry_reinforcement_factors = bits(&[1.0, 1.1]);
            policy.affinity_reinforcement_factors = bits(&[0.0, 0.7]);
        }
        2 => {
            policy.entry_reinforcement_factors = bits(&[1.0, 1.1, 1.17]);
            policy.affinity_reinforcement_factors = bits(&[0.0, 0.7, 0.9]);
        }
        _ => {}
    }
    policy
}

struct Fixture {
    sig: Signals,
    index: ContentIndex,
    policy: MemoryPolicy,
    now: Timestamp,
    next: Id,
    ids: Vec<(Id, Id, Id)>,
}

impl Fixture {
    fn new(entry_count: usize) -> Fixture {
        Fixture::with_policy(entry_count, MemoryPolicy::default())
    }

    fn with_policy(entry_count: usize, policy: MemoryPolicy) -> Fixture {
        let mut f = Fixture {
            sig: Signals {
                sessions: Vec::new(),
                results: Vec::new(),
                receipts: Vec::new(),
                stats: Vec::new(),
                store: AffinityStore { affinities: Vec::new(), vectors: Vec::new() },
            },
            index: ContentIndex { entries: Vec::new(), blocks: Vec::new(), chunks: Vec::new() },
            policy,
            now: Timestamp { seconds: 1_788_480_000, nanos: 0 },
            next: 0,
            ids: Vec::new(),
        };
        for _ in 0..entry_count {
            let (entry, block, chunk) = (f.id(), f.id(), f.id());
            f.index.entries.push(entry);
            f.index.blocks.push((block, entry));
            f.index.chunks.push((chunk, block));
            f.ids.push((entry, block, chunk));
        }
        f
    }

    fn id(&mut self) -> Id {
        self.next += 1;
        self.next
    }

    fn advance_hours(&mut self, hours: i64) {
        self.now.seconds += 3600 * hours;
    }

    fn entry_id(&self, index: usize) -> Id {
        self.ids[index].0
    }

    fn block_id(&self, index: usize) -> Id {
        self.ids[index].1
    }

    fn chunk_id(&self, index: usize) -> Id {
        self.ids[index].2
    }

    fn target(&self, index: usize) -> FeedbackTarget {
        self.target_at(index, Some(self.block_id(index)), Some(self.chunk_id(index)))
    }

    fn target_at(&self, index: usize, block: Option<Id>, chunk: Option<Id>) -> FeedbackTarget {
        FeedbackTarget { entry_id: self.entry_id(index), block_id: block, chunk_id: chunk }
    }

    fn result(&self, index: usize, rank: u32) -> SearchResultTarget {
        SearchResultTarget {
            entry_id: self.entry_id(index),
            matched_block_id: Some(self.block_id(index)),
            matched_chunk_id: Some(self.chunk_id(index)),
            result_rank: rank,
        }
    }

    fn record(&mut self, input: CreateSearchSession) -> Result<Id, CoreError> {
        let id = self.id();
        let expires = session_expiry(self.now, self.policy.session_ttl_hours);
        self.sig = create_search_session(
            self.sig.clone(),
            input,
            id,
            Moment::at(self.now),
            Moment::at(expires),
        )?;
        Ok(id)
    }

    fn new_session(&mut self, returned: &[usize]) -> Id {
        let raw = format!("  Raw   Query {}  ", self.next);
        self.new_session_with_query(returned, &raw, "  Effective   Query  ", &[1.0, 0.0, 0.0, 0.0])
    }

    fn new_session_with_query(
        &mut self,
        returned: &[usize],
        raw: &str,
        effective: &str,
        embedding: &[f32],
    ) -> Id {
        let results =
            returned.iter().enumerate().map(|(k, i)| self.result(*i, k as u32 + 1)).collect();
        self.record(CreateSearchSession {
            raw_query_text: raw.into(),
            effective_query_text: effective.into(),
            query_embedding: floats(embedding),
            embedding_model: "model-a".into(),
            results,
        })
        .unwrap()
    }

    fn feedback(
        &mut self,
        search: Id,
        targets: &[FeedbackTarget],
    ) -> Result<FeedbackResult, CoreError> {
        let fresh: Vec<(Id, Id)> = targets.iter().map(|_| (self.id(), self.id())).collect();
        let (sig, result) = apply_feedback(
            self.sig.clone(),
            &self.index,
            search,
            &targets.to_vec(),
            &Moment::at(self.now),
            self.policy.max_reinforcements,
            &fresh,
        )?;
        self.sig = sig;
        Ok(result)
    }

    fn signals(&self, index: usize) -> SignalBasis {
        let entries = vec![EntryCreated {
            id: self.entry_id(index),
            created_at: Moment::at(Timestamp { seconds: 0, nanos: 0 }),
        }];
        entry_memory_signals(&entries, &self.sig.stats, &vec![self.entry_id(index)]).unwrap()[0]
    }

    fn affinity_precision(&self, index: usize) -> Precision {
        let id = self.entry_id(index);
        let a = self.sig.store.affinities.iter().find(|a| a.entry_id == id).unwrap();
        (a.block_id, a.chunk_id)
    }

    fn result_precision(&self, index: usize) -> Precision {
        let id = self.entry_id(index);
        let r = self.sig.results.iter().find(|r| r.target.entry_id == id).unwrap();
        (r.target.matched_block_id, r.target.matched_chunk_id)
    }

    fn receipt_precision(&self, index: usize) -> Precision {
        let id = self.entry_id(index);
        let r = self.sig.receipts.iter().find(|r| r.entry_id == id).unwrap();
        (r.block_id, r.chunk_id)
    }

    fn counts(&self, index: usize) -> (usize, usize, usize, usize, usize) {
        let id = self.entry_id(index);
        let own: Vec<Id> = self
            .sig
            .store
            .affinities
            .iter()
            .filter(|a| a.entry_id == id)
            .map(|a| a.id)
            .collect();
        (
            self.sig.stats.iter().filter(|s| s.entry_id == id).count(),
            own.len(),
            self.sig.receipts.iter().filter(|r| r.entry_id == id).count(),
            self.sig.results.iter().filter(|r| r.target.entry_id == id).count(),
            self.sig.store.vectors.iter().filter(|v| own.contains(&v.affinity_id)).count(),
        )
    }

    fn seed_expired_sessions(&mut self, count: usize) -> Vec<Id> {
        (0..count)
            .map(|k| {
                let id = self.id();
                let expires =
                    Timestamp { seconds: self.now.seconds - 60 * (count - k) as i64, nanos: 0 };
                let created = Timestamp { seconds: expires.seconds - 3600, nanos: 0 };
                self.sig.sessions.push(Session {
                    id,
                    raw_query_text: "expired raw".into(),
                    effective_query_text: "expired effective".into(),
                    query_embedding: vec![0; 16],
                    embedding_model: "model-a".into(),
                    embedding_dim: 4,
                    created_at: Moment::at(created),
                    expires_at: Moment::at(expires),
                });
                let target = SearchResultTarget {
                    entry_id: self.entry_id(0),
                    matched_block_id: None,
                    matched_chunk_id: None,
                    result_rank: 1,
                };
                self.sig.results.push(SessionResult { search_id: id, target });
                id
            })
            .collect()
    }

    fn expired(&self) -> usize {
        let now = self.now;
        self.sig
            .sessions
            .iter()
            .filter(|s| !now.is_before(&s.expires_at.time.unwrap()))
            .count()
    }

    fn purge(&mut self) -> u64 {
        let now = Moment::at(self.now);
        let (sig, n) = purge_expired_sessions(self.sig.clone(), &now.text, 100, None);
        self.sig = sig;
        n
    }
}

#[test]
fn memory_service_rejects_invalid_memory_policies() {
    let invalid_cap = MemoryPolicy { max_reinforcements: 4, ..MemoryPolicy::default() };
    let mut invalid_length = policy_with_cap(2);
    invalid_length.entry_reinforcement_factors.pop();
    let mut invalid_order = policy_with_cap(2);
    invalid_order.affinity_reinforcement_factors =
        vec![0.0f64.to_bits(), 0.9f64.to_bits(), 0.8f64.to_bits()];
    for policy in [invalid_cap, invalid_length, invalid_order] {
        assert!(matches!(policy.validate(), Err(CoreError::Validation(_))));
    }
}

#[test]
fn feedback_updates_entry_and_exact_affinity_once() {
    let mut f = Fixture::new(1);
    let search_id = f.new_session(&[0]);
    let result = f.feedback(search_id, &[f.target(0)]).unwrap();
    assert_eq!(result.applied.len(), 1);
    assert_eq!(result.applied[0].reinforcement_count, 1);
    assert_eq!(result.applied[0].affinity_count, 1);
    assert!(result.already_applied.is_empty());
}

#[test]
fn feedback_session_creation_is_neutral_until_feedback_is_accepted() {
    let mut f = Fixture::new(1);
    f.new_session(&[0]);
    assert_eq!(f.sig.receipts.len(), 0);
    assert_eq!(f.sig.stats.len(), 0);
    assert_eq!(f.sig.store.affinities.len(), 0);
}

#[test]
fn feedback_accepts_entry_only_and_derives_chunk_ownership_without_block() {
    let mut f = Fixture::new(1);
    let search_id = f.new_session(&[0]);
    f.feedback(search_id, &[f.target_at(0, None, None)]).unwrap();
    assert_eq!(f.affinity_precision(0), (None, None));

    let mut f = Fixture::new(1);
    let search_id = f.new_session(&[0]);
    f.feedback(search_id, &[f.target_at(0, Some(f.block_id(0)), None)]).unwrap();
    assert_eq!(f.affinity_precision(0), (Some(f.block_id(0)), None));

    let mut f = Fixture::new(1);
    let search_id = f.new_session(&[0]);
    f.feedback(search_id, &[f.target_at(0, None, Some(f.chunk_id(0)))]).unwrap();
    assert_eq!(f.affinity_precision(0), (Some(f.block_id(0)), Some(f.chunk_id(0))));
}

#[test]
fn feedback_normalizes_effective_query_and_persists_session_vector() {
    let mut f = Fixture::new(1);
    let search_id = f.new_session_with_query(
        &[0],
        "  Original Raw Query  ",
        "  EFFECTIVE   Query  ",
        &[1.0, 0.0, 0.0, 0.0],
    );
    f.feedback(search_id, &[f.target(0)]).unwrap();
    let a = &f.sig.store.affinities[0];
    assert_eq!(a.query_hash, blake3::hash(b"effective query").to_hex().as_str());
    assert_eq!(a.raw_query_text, "  Original Raw Query  ");
    assert_eq!(a.effective_query_text, "  EFFECTIVE   Query  ");
    assert_eq!(a.embedding_model, "model-a");
    assert_eq!(a.embedding_dim, 4);
    assert_eq!(a.entry_id, f.entry_id(0));
    assert_eq!(a.block_id, Some(f.block_id(0)));
    assert_eq!(a.chunk_id, Some(f.chunk_id(0)));
    let v = &f.sig.store.vectors[0];
    assert_eq!(v.affinity_id, a.id);
    assert_eq!(v.embedding, bytes(&[1.0, 0.0, 0.0, 0.0]));
}

#[test]
fn same_search_and_entry_is_idempotent_without_refreshing_time() {
    let mut f = Fixture::new(1);
    let search_id = f.new_session(&[0]);
    f.feedback(search_id, &[f.target(0)]).unwrap();
    let first = format!("{:?}", (&f.sig.receipts, &f.sig.stats, &f.sig.store));
    let before = f.signals(0);
    f.advance_hours(1);
    let retry = f.feedback(search_id, &[f.target(0)]).unwrap();
    assert!(retry.applied.is_empty());
    assert_eq!(retry.already_applied, vec![f.entry_id(0)]);
    assert_eq!(before.last_reinforced_at, f.signals(0).last_reinforced_at);
    assert_eq!(first, format!("{:?}", (&f.sig.receipts, &f.sig.stats, &f.sig.store)));
}

#[test]
fn feedback_retry_after_reindex_precision_reconciliation_is_already_applied() {
    let mut f = Fixture::new(1);
    let search_id = f.new_session(&[0]);
    let target = f.target(0);
    f.feedback(search_id, &[target]).unwrap();
    f.index.blocks.clear();
    f.index.chunks.clear();
    f.sig = reconcile_content_references(f.sig.clone(), &f.index).unwrap().0;
    let retry = f.feedback(search_id, &[target]).unwrap();
    assert!(retry.applied.is_empty());
    assert_eq!(retry.already_applied, vec![f.entry_id(0)]);
    assert_eq!(f.sig.receipts.len(), 1);
}

#[test]
fn feedback_retry_after_block_ownership_mutation_is_already_applied() {
    let mut f = Fixture::new(2);
    let search_id = f.new_session(&[0]);
    let target = f.target(0);
    f.feedback(search_id, &[target]).unwrap();
    f.index.blocks[0].1 = f.entry_id(1);
    let retry = f.feedback(search_id, &[target]).unwrap();
    assert!(retry.applied.is_empty());
    assert_eq!(retry.already_applied, vec![f.entry_id(0)]);
    assert_eq!(f.sig.receipts.len(), 1);
}

#[test]
fn fourth_distinct_feedback_refreshes_time_but_count_stays_three() {
    let mut f = Fixture::new(1);
    for _ in 0..3 {
        let search_id = f.new_session(&[0]);
        f.feedback(search_id, &[f.target(0)]).unwrap();
    }
    let before = f.signals(0);
    f.advance_hours(24);
    let search_id = f.new_session(&[0]);
    let fourth = f.feedback(search_id, &[f.target(0)]).unwrap();
    assert_eq!(fourth.applied[0].reinforcement_count, 3);
    assert_eq!(fourth.applied[0].affinity_count, 3);
    assert!(before.last_reinforced_at.is_before(&fourth.applied[0].last_reinforced_at));
    let a = &f.sig.store.affinities[0];
    assert_eq!(a.reinforcement_count, 3);
    assert_eq!(a.last_reinforced_at.time, Some(fourth.applied[0].last_reinforced_at));
}

#[test]
fn fourth_post_cap_feedback_persists_distinct_vector_and_reloads_latest_timestamps() {
    let mut f = Fixture::new(1);
    for index in 0..3 {
        let raw = format!("raw capped query {index}");
        let search_id =
            f.new_session_with_query(&[0], &raw, "same capped query", &[1.0, 0.0, 0.0, 0.0]);
        f.feedback(search_id, &[f.target(0)]).unwrap();
    }
    f.advance_hours(1);
    let fourth_search = f.new_session_with_query(
        &[0],
        "raw capped query fourth",
        "same capped query",
        &[0.0, 1.0, 0.0, 0.0],
    );
    let fourth = f.feedback(fourth_search, &[f.target(0)]).unwrap();
    let expected = fourth.applied[0].last_reinforced_at;
    assert_eq!(f.signals(0).reinforcement_count, 3);
    assert_eq!(f.signals(0).last_reinforced_at, expected);
    assert_eq!(f.sig.store.affinities.len(), 1);
    assert_eq!(f.sig.store.affinities[0].reinforcement_count, 3);
    assert_eq!(f.sig.store.affinities[0].last_reinforced_at.time, Some(expected));
    assert_eq!(f.sig.store.vectors.len(), 1);
    assert_eq!(
        decode_vector(&f.sig.store.vectors[0].embedding),
        Some(floats(&[0.0, 1.0, 0.0, 0.0]))
    );
}

fn counts_under_cap(cap: u8) -> (u8, u8) {
    let mut f = Fixture::with_policy(1, policy_with_cap(cap));
    for _ in 0..3 {
        let search_id = f.new_session(&[0]);
        let latest = f.feedback(search_id, &[f.target(0)]).unwrap();
        assert!(latest.applied[0].reinforcement_count <= cap);
        assert!(latest.applied[0].affinity_count <= cap);
    }
    (f.sig.stats[0].reinforcement_count, f.sig.store.affinities[0].reinforcement_count)
}

#[test]
fn feedback_respects_max_one_policy() {
    assert_eq!(counts_under_cap(1), (1, 1));
}

#[test]
fn feedback_respects_max_two_policy() {
    assert_eq!(counts_under_cap(2), (2, 2));
}

#[test]
fn feedback_never_decrements_historical_counts_when_policy_cap_is_lowered() {
    let mut f = Fixture::new(1);
    for _ in 0..3 {
        let search_id = f.new_session(&[0]);
        f.feedback(search_id, &[f.target(0)]).unwrap();
    }
    f.policy = policy_with_cap(1);
    let search_id = f.new_session(&[0]);
    let result = f.feedback(search_id, &[f.target(0)]).unwrap();
    assert_eq!(result.applied[0].reinforcement_count, 3);
    assert_eq!(result.applied[0].affinity_count, 3);
    assert_eq!(f.sig.stats[0].reinforcement_count, 3);
    assert_eq!(f.sig.store.affinities[0].reinforcement_count, 3);
}

#[test]
fn feedback_refreshes_existing_affinity_from_latest_session() {
    let mut f = Fixture::new(1);
    let first = f.new_session_with_query(
        &[0],
        "first raw",
        " Same   Effective Query ",
        &[1.0, 0.0, 0.0, 0.0],
    );
    f.feedback(first, &[f.target(0)]).unwrap();
    f.advance_hours(1);
    let second = f.new_session_with_query(
        &[0],
        "second raw",
        "same effective query",
        &[0.0, 1.0, 0.0, 0.0],
    );
    let result = f.feedback(second, &[f.target(0)]).unwrap();
    assert_eq!(f.sig.store.affinities.len(), 1);
    let a = &f.sig.store.affinities[0];
    assert_eq!(a.raw_query_text, "second raw");
    assert_eq!(a.reinforcement_count, 2);
    assert_eq!(a.last_reinforced_at.time, Some(result.applied[0].last_reinforced_at));
    assert_eq!(f.sig.store.vectors[0].embedding, bytes(&[0.0, 1.0, 0.0, 0.0]));
}

#[test]
fn feedback_accepts_multiple_correct_entries_atomically() {
    let mut f = Fixture::new(2);
    let search_id = f.new_session(&[0, 1]);
    let result = f.feedback(search_id, &[f.target(0), f.target(1)]).unwrap();
    assert_eq!(result.applied.len(), 2);
    assert_eq!(f.sig.receipts.len(), 2);
}

#[test]
fn one_invalid_target_rolls_back_every_target() {
    let mut f = Fixture::new(2);
    let search_id = f.new_session(&[0]);
    let error = f.feedback(search_id, &[f.target(0), f.target(1)]).unwrap_err();
    assert!(matches!(error, CoreError::Validation(_)));
    assert_eq!(f.sig.receipts.len(), 0);
    assert_eq!(f.sig.stats.len(), 0);
}

#[test]
fn expired_session_returns_conflict() {
    let mut f = Fixture::new(1);
    let search_id = f.new_session(&[0]);
    f.advance_hours(25);
    assert!(matches!(f.feedback(search_id, &[f.target(0)]), Err(CoreError::Conflict(_))));
}

#[test]
fn feedback_at_exact_expiry_returns_conflict_without_purging_target_session() {
    let mut f = Fixture::new(1);
    let search_id = f.new_session(&[0]);
    f.now = f.sig.sessions[0].expires_at.time.unwrap();
    assert!(matches!(f.feedback(search_id, &[f.target(0)]), Err(CoreError::Conflict(_))));
    assert_eq!(f.sig.sessions.len(), 1);
    assert_eq!(f.sig.receipts.len(), 0);
    assert_eq!(f.sig.stats.len(), 0);
}

#[test]
fn missing_session_returns_resource_not_found() {
    let mut f = Fixture::new(1);
    let search_id = f.id();
    assert!(matches!(
        f.feedback(search_id, &[f.target(0)]),
        Err(CoreError::ResourceNotFound {
            resource: "search session",
            id
        }) if id == search_id
    ));
}

#[test]
fn new_feedback_for_a_deleted_returned_entry_is_resource_not_found() {
    let mut f = Fixture::new(1);
    let search_id = f.new_session(&[0]);
    let entry_id = f.entry_id(0);
    let target = f.target(0);
    f.index = ContentIndex { entries: Vec::new(), blocks: Vec::new(), chunks: Vec::new() };
    assert!(matches!(
        f.feedback(search_id, &[target]),
        Err(CoreError::ResourceNotFound {
            resource: "entry",
            id,
        }) if id == entry_id
    ));
    assert_eq!(f.sig.receipts.len(), 0);
    assert_eq!(f.sig.stats.len(), 0);
}

#[test]
fn target_must_have_been_returned_and_precise_ids_must_match() {
    let mut f = Fixture::new(2);
    let search_id = f.new_session(&[0]);
    assert!(matches!(f.feedback(search_id, &[f.target(1)]), Err(CoreError::Validation(_))));
    let wrong_chunk = f.target_at(0, Some(f.block_id(0)), Some(f.chunk_id(1)));
    assert!(matches!(f.feedback(search_id, &[wrong_chunk]), Err(CoreError::Validation(_))));
}

#[test]
fn feedback_precise_target_must_still_belong_to_returned_entry() {
    let mut f = Fixture::new(2);
    let search_id = f.new_session(&[0]);
    f.index.blocks[0].1 = f.entry_id(1);
    assert!(matches!(f.feedback(search_id, &[f.target(0)]), Err(CoreError::Validation(_))));
    assert_eq!(f.sig.receipts.len(), 0);
    assert_eq!(f.sig.stats.len(), 0);
}

#[test]
fn feedback_rejects_empty_and_duplicate_entry_targets() {
    let mut f = Fixture::new(1);
    let search_id = f.new_session(&[0]);
    assert!(matches!(f.feedback(search_id, &[]), Err(CoreError::Validation(_))));
    let twice = [f.target(0), f.target(0)];
    assert!(matches!(f.feedback(search_id, &twice), Err(CoreError::Validation(_))));
    assert_eq!(f.sig.receipts.len(), 0);
}

#[test]
fn feedback_for_another_model_is_a_conflict() {
    let mut f = Fixture::new(1);
    let search_id = f.new_session(&[0]);
    let active = Some(ActiveEmbedding { model: "model-b".into(), dim: 4 });
    let r = apply_feedback_for_embedding(
        f.sig.clone(),
        &f.index,
        search_id,
        &vec![f.target(0)],
        &active,
        &Moment::at(f.now),
        3,
        &vec![(1000, 1001)],
    );
    assert!(matches!(r, Err(CoreError::Conflict(m))
        if m == "search session embedding model/dimension mismatch: session model-a:4, active model-b:4; run search.hybrid again"));
}

#[test]
fn an_example_is_kept_under_the_hash_of_its_query() {
    let mut f = Fixture::new(1);
    let search_id = f.new_session(&[0]);
    let run = |hash: &str, sig: Signals, fresh: (Id, Id)| {
        apply_feedback_with_hash(
            sig,
            &f.index,
            search_id,
            &vec![f.target(0)],
            &None,
            &Moment::at(f.now),
            3,
            &hash.to_string(),
            &vec![fresh],
        )
        .unwrap()
    };
    let (once, result) = run("h1", f.sig.clone(), (1000, 1001));
    assert_eq!(result.applied[0].affinity_count, 1);
    assert_eq!(once.store.affinities[0].query_hash, "h1");
    let mut again = once.clone();
    again.receipts.clear();
    let (same, result) = run("h1", again.clone(), (1002, 1003));
    assert_eq!(result.applied[0].affinity_count, 2);
    assert_eq!(same.store.affinities.len(), 1);
    let (other, result) = run("h2", again, (1002, 1003));
    assert_eq!(result.applied[0].affinity_count, 1);
    assert_eq!(other.store.affinities.len(), 2);
}

#[test]
fn cleanup_delete_entry_signals_removes_only_the_selected_entry() {
    let mut f = Fixture::new(2);
    let search_id = f.new_session(&[0, 1]);
    f.feedback(search_id, &[f.target(0), f.target(1)]).unwrap();
    assert_eq!(f.counts(0), (1, 1, 1, 1, 1));
    assert_eq!(f.counts(1), (1, 1, 1, 1, 1));
    f.sig = delete_entry_signals(f.sig.clone(), f.entry_id(0));
    assert_eq!(f.counts(0), (0, 0, 0, 0, 0));
    assert_eq!(f.counts(1), (1, 1, 1, 1, 1));
    assert_eq!(f.sig.store.vectors.len(), 1);
}

#[test]
fn cleanup_degrade_block_clears_materialized_precision_not_receipt_history() {
    let mut f = Fixture::new(1);
    let search_id = f.new_session(&[0]);
    f.feedback(search_id, &[f.target(0)]).unwrap();
    f.sig = degrade_block_precision(f.sig.clone(), f.block_id(0), &vec![f.chunk_id(0)]).unwrap();
    assert_eq!(f.affinity_precision(0), (None, None));
    assert_eq!(f.result_precision(0), (None, None));
    assert_eq!(f.receipt_precision(0), (Some(f.block_id(0)), Some(f.chunk_id(0))));
}

#[test]
fn cleanup_degrade_block_also_clears_semantic_only_session_chunk_precision() {
    let mut f = Fixture::new(1);
    let result = SearchResultTarget { matched_block_id: None, ..f.result(0, 1) };
    let search_id = f
        .record(CreateSearchSession {
            raw_query_text: "semantic-only raw".into(),
            effective_query_text: "semantic-only query".into(),
            query_embedding: floats(&[1.0, 0.0, 0.0, 0.0]),
            embedding_model: "model-a".into(),
            results: vec![result],
        })
        .unwrap();
    f.feedback(search_id, &[f.target_at(0, None, Some(f.chunk_id(0)))]).unwrap();
    f.sig = degrade_block_precision(f.sig.clone(), f.block_id(0), &vec![f.chunk_id(0)]).unwrap();
    assert_eq!(f.affinity_precision(0), (None, None));
    assert_eq!(f.result_precision(0), (None, None));
}

#[test]
fn cleanup_degrade_block_coalesces_an_existing_entry_affinity() {
    let mut f = Fixture::new(1);
    let entry_only = f.new_session_with_query(
        &[0],
        "older raw",
        "  Effective   Query  ",
        &[1.0, 0.0, 0.0, 0.0],
    );
    f.feedback(entry_only, &[f.target_at(0, None, None)]).unwrap();
    f.advance_hours(1);
    let precise =
        f.new_session_with_query(&[0], "newer raw", "effective query", &[0.0, 1.0, 0.0, 0.0]);
    let precise_feedback = f.feedback(precise, &[f.target(0)]).unwrap();
    assert_eq!(f.sig.store.affinities.len(), 2);
    f.sig = degrade_block_precision(f.sig.clone(), f.block_id(0), &vec![f.chunk_id(0)]).unwrap();
    assert_eq!(f.sig.store.affinities.len(), 1);
    let a = &f.sig.store.affinities[0];
    assert_eq!(a.block_id, None);
    assert_eq!(a.chunk_id, None);
    assert_eq!(a.reinforcement_count, 1);
    assert_eq!(a.raw_query_text, "newer raw");
    assert_eq!(a.effective_query_text, "effective query");
    assert_eq!(a.last_reinforced_at.time, Some(precise_feedback.applied[0].last_reinforced_at));
    assert_eq!(f.sig.store.vectors.len(), 1);
    assert_eq!(f.sig.store.vectors[0].embedding, bytes(&[0.0, 1.0, 0.0, 0.0]));
    assert_eq!(f.sig.receipts.len(), 2);
}

#[test]
fn cleanup_degrade_chunk_clears_only_selected_chunks_and_keeps_blocks() {
    let mut f = Fixture::new(2);
    let search_id = f.new_session(&[0, 1]);
    f.feedback(search_id, &[f.target(0), f.target(1)]).unwrap();
    f.sig = degrade_chunk_precision(f.sig.clone(), &vec![f.chunk_id(0)]).unwrap();
    assert_eq!(f.affinity_precision(0), (Some(f.block_id(0)), None));
    assert_eq!(f.result_precision(0), (Some(f.block_id(0)), None));
    assert_eq!(f.affinity_precision(1), (Some(f.block_id(1)), Some(f.chunk_id(1))));
    assert_eq!(f.receipt_precision(0), (Some(f.block_id(0)), Some(f.chunk_id(0))));
}

#[test]
fn cleanup_degrade_chunks_coalesces_affinities_that_lose_chunk_precision() {
    let mut f = Fixture::new(1);
    let second_chunk = f.id();
    f.index.chunks.push((second_chunk, f.block_id(0)));
    let first_session = f.new_session(&[0]);
    f.feedback(first_session, &[f.target(0)]).unwrap();
    f.advance_hours(1);
    let result = SearchResultTarget { matched_chunk_id: Some(second_chunk), ..f.result(0, 1) };
    let second_session = f
        .record(CreateSearchSession {
            raw_query_text: "second chunk raw".into(),
            effective_query_text: "effective query".into(),
            query_embedding: floats(&[0.0, 1.0, 0.0, 0.0]),
            embedding_model: "model-a".into(),
            results: vec![result],
        })
        .unwrap();
    let target = f.target_at(0, Some(f.block_id(0)), Some(second_chunk));
    f.feedback(second_session, &[target]).unwrap();
    assert_eq!(f.sig.store.affinities.len(), 2);
    let chunks = vec![f.chunk_id(0), second_chunk];
    f.sig = degrade_chunk_precision(f.sig.clone(), &chunks).unwrap();
    assert_eq!(f.sig.store.affinities.len(), 1);
    assert_eq!(f.affinity_precision(0), (Some(f.block_id(0)), None));
    assert_eq!(f.sig.store.affinities[0].reinforcement_count, 1);
    assert_eq!(f.sig.store.vectors.len(), 1);
    assert_eq!(f.sig.receipts.len(), 2);
}

#[test]
fn cleanup_reconcile_removes_missing_entries_and_degrades_stale_precision() {
    let mut f = Fixture::new(4);
    let search_id = f.new_session(&[0, 1, 2, 3]);
    let targets = [f.target(0), f.target(1), f.target(2), f.target(3)];
    f.feedback(search_id, &targets).unwrap();
    // The first entry goes, and the second's chunk, and the third's block.
    let (entry0, block0, chunk0) = f.ids[0];
    let (chunk1, block2, chunk2) = (f.chunk_id(1), f.block_id(2), f.chunk_id(2));
    f.index.entries.retain(|e| *e != entry0);
    f.index.blocks.retain(|b| b.0 != block0 && b.0 != block2);
    f.index.chunks.retain(|c| c.0 != chunk0 && c.0 != chunk1 && c.0 != chunk2);
    let (sig, result) = reconcile_content_references(f.sig.clone(), &f.index).unwrap();
    f.sig = sig;
    assert_eq!(result.entry_stats_deleted, 1);
    assert_eq!(result.affinities_deleted, 1);
    assert_eq!(result.feedback_deleted, 1);
    assert_eq!(result.session_results_deleted, 1);
    assert_eq!(result.affinities_degraded, 2);
    assert_eq!(result.session_results_degraded, 2);
    assert_eq!(result.vectors_deleted, 1);
    assert_eq!(f.counts(0), (0, 0, 0, 0, 0));
    assert_eq!(f.counts(1), (1, 1, 1, 1, 1));
    assert_eq!(f.counts(2), (1, 1, 1, 1, 1));
    assert_eq!(f.counts(3), (1, 1, 1, 1, 1));
    assert_eq!(f.sig.store.vectors.len(), 3);
    assert_eq!(f.affinity_precision(1), (Some(f.block_id(1)), None));
    assert_eq!(f.affinity_precision(2), (None, None));
    assert_eq!(f.affinity_precision(3), (Some(f.block_id(3)), Some(f.chunk_id(3))));
    for i in [1, 2] {
        assert_eq!(f.receipt_precision(i), (Some(f.block_id(i)), Some(f.chunk_id(i))));
    }
    // A second run changes nothing.
    let (_, again) = reconcile_content_references(f.sig.clone(), &f.index).unwrap();
    assert_eq!(again, SignalReconcileResult::default());
}

#[test]
fn cleanup_reconcile_degrades_cross_entry_precision_that_still_resolves() {
    let mut f = Fixture::new(2);
    let search_id = f.new_session(&[0]);
    f.feedback(search_id, &[f.target(0)]).unwrap();
    f.index.blocks[0].1 = f.entry_id(1);
    let (sig, result) = reconcile_content_references(f.sig.clone(), &f.index).unwrap();
    f.sig = sig;
    assert_eq!(result.affinities_degraded, 1);
    assert_eq!(result.session_results_degraded, 1);
    assert_eq!(f.affinity_precision(0), (None, None));
    assert_eq!(f.receipt_precision(0), (Some(f.block_id(0)), Some(f.chunk_id(0))));
}

#[test]
fn purge_expired_sessions_is_bounded_oldest_first_and_cascades_results() {
    let mut f = Fixture::new(1);
    let ids = f.seed_expired_sessions(102);
    assert_eq!(f.purge(), 100);
    let remaining: Vec<Id> = f.sig.sessions.iter().map(|s| s.id).collect();
    assert_eq!(remaining, vec![ids[100], ids[101]]);
    assert_eq!(f.sig.results.len(), 2);
}

#[test]
fn purge_treats_equal_expiry_as_expired() {
    let mut f = Fixture::new(1);
    f.new_session(&[0]);
    f.now = f.sig.sessions[0].expires_at.time.unwrap();
    assert_eq!(f.purge(), 1);
    assert_eq!(f.sig.sessions.len(), 0);
    assert_eq!(f.sig.results.len(), 0);
}

#[test]
fn session_creation_purges_at_most_one_hundred_expired_sessions() {
    let mut f = Fixture::new(1);
    f.seed_expired_sessions(101);
    f.new_session(&[0]);
    assert_eq!(f.expired(), 1);
    assert_eq!(f.sig.sessions.len(), 2);
    assert_eq!(f.sig.results.len(), 2);
    assert_eq!(f.sig.stats.len(), 0);
    assert_eq!(f.sig.store.affinities.len(), 0);
}

#[test]
fn feedback_processing_purges_at_most_one_hundred_other_expired_sessions() {
    let mut f = Fixture::new(1);
    let valid_search_id = f.new_session(&[0]);
    f.seed_expired_sessions(101);
    f.feedback(valid_search_id, &[f.target(0)]).unwrap();
    assert_eq!(f.expired(), 1);
    assert_eq!(f.sig.sessions.len(), 2);
    assert_eq!(f.sig.results.len(), 2);
    assert_eq!(f.sig.receipts.len(), 1);
}

#[test]
fn purge_expired_session_preserves_accepted_feedback_and_materialized_signals() {
    let mut f = Fixture::new(1);
    let search_id = f.new_session(&[0]);
    f.feedback(search_id, &[f.target(0)]).unwrap();
    f.advance_hours(25);
    assert_eq!(f.purge(), 1);
    assert_eq!(f.sig.sessions.len(), 0);
    assert_eq!(f.sig.results.len(), 0);
    assert_eq!(f.counts(0), (1, 1, 1, 0, 1));
    assert_eq!(f.sig.store.vectors.len(), 1);
}

#[test]
fn session_persists_raw_effective_query_embedding_and_results() {
    let mut f = Fixture::new(1);
    let result = SearchResultTarget { matched_chunk_id: None, ..f.result(0, 1) };
    let search_id = f
        .record(CreateSearchSession {
            raw_query_text: "  Raw Query  ".into(),
            effective_query_text: "expanded query".into(),
            query_embedding: floats(&[1.0, 0.0, 0.0, 0.0]),
            embedding_model: "model-a".into(),
            results: vec![result],
        })
        .unwrap();
    let stored = f.sig.sessions.iter().find(|s| s.id == search_id).unwrap();
    assert_eq!(stored.raw_query_text, "  Raw Query  ");
    assert_eq!(stored.effective_query_text, "expanded query");
    assert_eq!(stored.query_embedding, bytes(&[1.0, 0.0, 0.0, 0.0]));
    assert_eq!(stored.embedding_dim, 4);
    assert_eq!(f.sig.results.iter().filter(|r| r.search_id == search_id).count(), 1);
}

#[test]
fn failed_session_result_insert_rolls_back_and_restores_autocommit() {
    let mut f = Fixture::new(1);
    let results = vec![f.result(0, 1), f.result(0, 2)];
    let error = f.record(CreateSearchSession {
        raw_query_text: "duplicate target".into(),
        effective_query_text: "duplicate target".into(),
        query_embedding: floats(&[1.0, 0.0, 0.0, 0.0]),
        embedding_model: "model-a".into(),
        results,
    });
    assert!(error.is_err());
    assert_eq!(f.sig.sessions.len(), 0);
    assert_eq!(f.sig.results.len(), 0);
}

#[test]
fn a_session_from_a_leap_second_counts_from_the_second_before_it() {
    let leap = Timestamp { seconds: 1_483_228_799, nanos: 1_500_000_000 };
    let expires = session_expiry(leap, 24);
    assert_eq!(expires, Timestamp { seconds: 1_483_315_199, nanos: 500_000_000 });
    let start = chrono::DateTime::from_timestamp(leap.seconds, leap.nanos).unwrap();
    let end = start + chrono::Duration::hours(24);
    assert_eq!(
        (end.timestamp(), end.timestamp_subsec_nanos()),
        (expires.seconds, expires.nanos)
    );
}

#[test]
fn a_session_needs_a_vector() {
    let mut f = Fixture::new(1);
    let error = f.record(CreateSearchSession {
        raw_query_text: "r".into(),
        effective_query_text: "e".into(),
        query_embedding: Vec::new(),
        embedding_model: "model-a".into(),
        results: Vec::new(),
    });
    assert!(matches!(error, Err(CoreError::Validation(m)) if m == "query embedding must be non-empty"));
}

#[test]
fn absent_stats_use_entry_created_at() {
    let created = Timestamp { seconds: 1_788_480_000, nanos: 5 };
    let entries = vec![EntryCreated { id: 7, created_at: Moment::at(created) }];
    let signals = entry_memory_signals(&entries, &Vec::new(), &vec![7]).unwrap();
    assert_eq!(signals.len(), 1);
    assert_eq!(signals[0].reinforcement_count, 0);
    assert_eq!(signals[0].last_reinforced_at, created);
    let policy = MemoryPolicy::default();
    assert_eq!(f64::from_bits(policy.entry_reinforcement_factor(0)), 1.0);
}

/// Content, learned examples and their vectors.
struct Learned {
    catalog: Catalog,
    rows: Vec<Affinity>,
    vectors: Vec<(Id, Vec<f32>)>,
    now: Timestamp,
    next: Id,
}

impl Learned {
    fn new() -> Learned {
        Learned {
            catalog: Catalog { entries: Vec::new(), blocks: Vec::new(), chunks: Vec::new() },
            rows: Vec::new(),
            vectors: Vec::new(),
            now: Timestamp { seconds: 1_788_480_000, nanos: 0 },
            next: 0,
        }
    }

    fn id(&mut self) -> Id {
        self.next += 1;
        self.next
    }

    /// An entry with a note and its chunk.
    fn seed(&mut self, tag: &str) -> (Id, Id, Id) {
        let (entry, block, chunk) = (self.id(), self.id(), self.id());
        self.catalog.entries.push(EntryFacts {
            id: entry,
            tags: vec![tag.into()],
            benchmark: false,
        });
        self.catalog.blocks.push(BlockFacts { id: block, entry_id: entry, type_: "note".into() });
        self.catalog.chunks.push((chunk, block));
        (entry, block, chunk)
    }

    fn learn(&mut self, entry: Id, block: Option<Id>, chunk: Option<Id>, model: &str, v: &[f32]) -> Id {
        let id = self.id();
        let at = Moment::at(self.now);
        self.rows.push(Affinity {
            id,
            query_hash: format!("fixture-{id}"),
            raw_query_text: "raw".into(),
            effective_query_text: "effective".into(),
            embedding_model: model.into(),
            embedding_dim: v.len() as i64,
            entry_id: entry,
            block_id: block,
            chunk_id: chunk,
            reinforcement_count: 1,
            last_reinforced_at: at.clone(),
            created_at: at.clone(),
            updated_at: at,
        });
        self.vectors.push((id, v.to_vec()));
        id
    }

    fn find(
        &self,
        query: &[f32],
        model: &str,
        limit: usize,
        block_type: Option<&str>,
        tag: Option<&str>,
    ) -> Vec<AffinityHit> {
        if lookup_for(query.len(), limit, self.vectors.len() as u64) == Lookup::Nothing {
            return Vec::new();
        }
        let policy = MemoryPolicy::default();
        let filter = AffinityFilter {
            model: model.into(),
            dim: query.len() as i64,
            block_type: block_type.map(String::from),
            tag: tag.map(String::from),
            include_benchmark: false,
        };
        let scored: Vec<(Id, u64)> =
            self.vectors.iter().map(|(id, v)| (*id, cosine(query, v).to_bits())).collect();
        let raws = affinity_candidates(&self.rows, &self.catalog, &filter, &scored).unwrap();
        let candidates: Vec<Candidate> = near_enough(&raws, policy.affinity_similarity_threshold)
            .into_iter()
            .map(|raw| {
                let threshold = f64::from_bits(policy.affinity_similarity_threshold);
                let similarity = f64::from_bits(raw.similarity);
                let near = ((similarity - threshold) / (1.0 - threshold)).clamp(0.0, 1.0);
                let age = (self.now.seconds - raw.last_reinforced_at.seconds) as f64 / 86_400.0;
                let decay = 2.0f64.powf(-age / f64::from_bits(policy.half_life_days));
                let decay = decay.clamp(f64::from_bits(policy.decay_floor), 1.0);
                let factor =
                    f64::from_bits(policy.affinity_reinforcement_factor(raw.reinforcement_count));
                Candidate { raw, confidence: (near * decay * factor).to_bits() }
            })
            .collect();
        rank_affinities(candidates, limit)
    }
}

fn cosine(a: &[f32], b: &[f32]) -> f64 {
    let dot: f64 = a.iter().zip(b).map(|(x, y)| *x as f64 * *y as f64).sum();
    let norm = |v: &[f32]| v.iter().map(|x| *x as f64 * *x as f64).sum::<f64>().sqrt();
    dot / (norm(a) * norm(b))
}

fn entries_of(hits: &[AffinityHit]) -> Vec<Id> {
    hits.iter().map(|hit| hit.entry_id).collect()
}

fn ranks_of(hits: &[AffinityHit]) -> Vec<u32> {
    hits.iter().map(|hit| hit.affinity_rank).collect()
}

const X: [f32; 4] = [1.0, 0.0, 0.0, 0.0];

#[test]
fn required_affinity_selection_keeps_lower_global_rank_and_caps_non_required_hits() {
    let mut l = Learned::new();
    let strongest = l.seed("alpha");
    let second = l.seed("alpha");
    let third = l.seed("alpha");
    let required = l.seed("alpha");
    l.learn(strongest.0, Some(strongest.1), None, "model-a", &X);
    l.learn(second.0, Some(second.1), None, "model-a", &[0.98, 0.198_997_49, 0.0, 0.0]);
    l.learn(third.0, Some(third.1), None, "model-a", &[0.96, 0.28, 0.0, 0.0]);
    l.learn(required.0, Some(required.1), None, "model-a", &[0.90, 0.435_889_9, 0.0, 0.0]);
    let all = l.find(&X, "model-a", usize::MAX, Some("note"), Some("alpha"));
    let hits = choose_hits(&all, &vec![required.0], 2);
    assert_eq!(entries_of(&hits), vec![strongest.0, second.0, required.0]);
    assert_eq!(ranks_of(&hits), vec![1, 2, 4]);
    assert!(!hits.iter().any(|hit| hit.entry_id == third.0));
    let score = f64::from_bits(hits[2].confidence) / (60.0 + 4.0);
    assert!((score - 0.004_861_111_111_111_112).abs() < 1e-6);
}

#[test]
fn required_affinity_selection_returns_all_required_without_stacking_or_using_allowance() {
    let mut l = Learned::new();
    let strongest = l.seed("alpha");
    let excluded = l.seed("alpha");
    let required_a = l.seed("alpha");
    let required_b = l.seed("alpha");
    l.learn(strongest.0, Some(strongest.1), None, "model-a", &X);
    l.learn(excluded.0, Some(excluded.1), None, "model-a", &[0.98, 0.198_997_49, 0.0, 0.0]);
    l.learn(required_a.0, Some(required_a.1), None, "model-a", &[0.94, 0.341_174_45, 0.0, 0.0]);
    l.learn(required_b.0, Some(required_b.1), None, "model-a", &[0.90, 0.435_889_9, 0.0, 0.0]);
    l.learn(required_a.0, Some(required_a.1), None, "model-a", &[0.83, 0.557_763_4, 0.0, 0.0]);
    let all = l.find(&X, "model-a", usize::MAX, Some("note"), Some("alpha"));
    let hits = choose_hits(&all, &vec![required_a.0, required_b.0], 1);
    assert_eq!(entries_of(&hits), vec![strongest.0, required_a.0, required_b.0]);
    assert_eq!(ranks_of(&hits), vec![1, 3, 4]);
    assert_eq!(hits.iter().filter(|hit| hit.entry_id == required_a.0).count(), 1);
    assert!(!hits.iter().any(|hit| hit.entry_id == excluded.0));
}

#[test]
fn affinity_lookup_filters_model_threshold_tag_and_block_type() {
    let mut l = Learned::new();
    let entry = l.seed("alpha");
    l.learn(entry.0, Some(entry.1), None, "model-a", &X);
    let hit = l.find(&X, "model-a", 10, Some("note"), Some("alpha"));
    assert_eq!(hit.len(), 1);
    assert_eq!(hit[0].entry_id, entry.0);
    assert!(l.find(&X, "model-b", 10, Some("note"), Some("alpha")).is_empty());
    let y = [0.0, 1.0, 0.0, 0.0];
    assert!(l.find(&y, "model-a", 10, Some("note"), Some("alpha")).is_empty());
    assert!(l.find(&X, "model-a", 10, Some("claim"), Some("alpha")).is_empty());
    assert!(l.find(&X, "model-a", 10, Some("note"), Some("beta")).is_empty());
}

#[test]
fn stale_model_vectors_do_not_consume_active_model_knn_slots() {
    let mut l = Learned::new();
    let stale = l.seed("alpha");
    let active = l.seed("alpha");
    l.learn(stale.0, Some(stale.1), None, "model-stale", &X);
    l.learn(active.0, Some(active.1), None, "model-active", &[0.9, 0.1, 0.0, 0.0]);
    let hits = l.find(&X, "model-active", 1, Some("note"), Some("alpha"));
    assert_eq!(hits.len(), 1);
    assert_eq!(hits[0].entry_id, active.0);
}

#[test]
fn affinity_lookup_falls_back_to_exact_scan_above_vec_knn_limit() {
    assert_eq!(lookup_for(4, 2, 4096), Lookup::Nearest(4096));
    assert_eq!(lookup_for(4, 2, 4097), Lookup::Scan);
    assert_eq!(lookup_for(0, 2, 5), Lookup::Nothing);
    assert_eq!(lookup_for(4, 0, 5), Lookup::Nothing);
    assert_eq!(lookup_for(4, 2, 0), Lookup::Nothing);
    let mut l = Learned::new();
    let stale = l.seed("alpha");
    let wrong_tag = l.seed("beta");
    let strongest = l.seed("alpha");
    let second = l.seed("alpha");
    for _ in 0..95 {
        l.learn(stale.0, Some(stale.1), None, "model-stale", &X);
    }
    l.learn(wrong_tag.0, Some(wrong_tag.1), None, "model-a", &X);
    l.learn(strongest.0, Some(strongest.1), None, "model-a", &X);
    l.learn(strongest.0, Some(strongest.1), None, "model-a", &[0.9, 0.435_889_9, 0.0, 0.0]);
    l.learn(second.0, Some(second.1), None, "model-a", &[0.95, 0.312_249_9, 0.0, 0.0]);
    let hits = l.find(&X, "model-a", 2, Some("note"), Some("alpha"));
    assert_eq!(hits.len(), 2);
    assert_eq!(hits[0].entry_id, strongest.0);
    assert_eq!(hits[1].entry_id, second.0);
    assert_eq!(hits[0].affinity_rank, 1);
    assert_eq!(hits[1].affinity_rank, 2);
}

#[test]
fn cross_entry_stale_targets_do_not_match_or_attach() {
    let mut l = Learned::new();
    let owner = l.seed("alpha");
    let foreign = l.seed("alpha");
    l.learn(owner.0, Some(foreign.1), None, "model-a", &X);
    assert!(l.find(&X, "model-a", 10, Some("note"), Some("alpha")).is_empty());

    let mut l = Learned::new();
    let owner = l.seed("alpha");
    let foreign = l.seed("alpha");
    l.learn(owner.0, Some(owner.1), Some(foreign.2), "model-a", &X);
    let hits = l.find(&X, "model-a", 10, Some("note"), Some("alpha"));
    assert_eq!(hits.len(), 1);
    assert_eq!(hits[0].entry_id, owner.0);
    assert_eq!(hits[0].block_id, Some(owner.1));
    assert_eq!(hits[0].chunk_id, None);
}

#[test]
fn affinity_examples_are_deduplicated_by_the_strongest_confidence() {
    let mut l = Learned::new();
    let entry = l.seed("alpha");
    l.learn(entry.0, Some(entry.1), None, "model-a", &X);
    l.learn(entry.0, Some(entry.1), None, "model-a", &[0.9, 0.435_889_9, 0.0, 0.0]);
    l.rows[1].reinforcement_count = 3;
    l.now.seconds += 30 * 86_400;
    let hits = l.find(&X, "model-a", 10, Some("note"), Some("alpha"));
    assert_eq!(hits.len(), 1);
    assert!((f64::from_bits(hits[0].confidence) - 0.35).abs() < 1e-6);
}

fn moment(s: &str) -> Moment {
    Moment::read(s.to_string())
}

fn example(id: Id, query: &str, raw: &str, model: &str, count: u8, times: [&str; 3]) -> Affinity {
    Affinity {
        id,
        query_hash: query_hash(query),
        raw_query_text: raw.into(),
        effective_query_text: query.into(),
        embedding_model: model.into(),
        embedding_dim: 4,
        entry_id: 1,
        block_id: Some(2),
        chunk_id: Some(3),
        reinforcement_count: count,
        last_reinforced_at: moment(times[0]),
        created_at: moment(times[1]),
        updated_at: moment(times[2]),
    }
}

fn store(rows: Vec<Affinity>) -> AffinityStore {
    let vectors = rows
        .iter()
        .map(|a| AffinityVector { affinity_id: a.id, embedding: encode_vector(&floats(&X)) })
        .collect();
    AffinityStore { affinities: rows, vectors }
}

#[test]
fn affinity_reembedding_coalesces_model_collisions_with_strongest_and_latest_metadata() {
    let older = example(
        10,
        " SAME   Query ",
        "older raw",
        "old-model-a",
        3,
        ["2026-01-10T00:00:00Z", "2025-01-01T00:00:00Z", "2026-01-11T00:00:00Z"],
    );
    let latest = example(
        11,
        "same query",
        "latest raw",
        "old-model-b",
        2,
        ["2026-02-10T00:00:00Z", "2025-02-01T00:00:00Z", "2026-02-11T00:00:00Z"],
    );
    let before = store(vec![older, latest]);
    let plan = list_affinities_for_reembedding(&before.affinities).unwrap();
    assert_eq!(plan.inputs.len(), 1);
    assert_eq!(plan.inputs[0].affinity_id, 11);
    assert_eq!(plan.inputs[0].effective_query_text, "same query");
    let after = replace_affinity_vectors(
        before,
        &"active-model".to_string(),
        4,
        &plan.fingerprint,
        &vec![(11, floats(&[0.0, 1.0, 0.0, 0.0]))],
    )
    .unwrap();
    assert_eq!(after.affinities.len(), 1);
    let a = &after.affinities[0];
    assert_eq!(a.id, 11);
    assert_eq!(a.raw_query_text, "latest raw");
    assert_eq!(a.effective_query_text, "same query");
    assert_eq!(a.embedding_model, "active-model");
    assert_eq!(a.embedding_dim, 4);
    assert_eq!(a.reinforcement_count, 3);
    assert_eq!(a.last_reinforced_at.text, "2026-02-10T00:00:00Z");
    assert_eq!(a.created_at.text, "2025-01-01T00:00:00Z");
    assert_eq!(a.updated_at.text, "2026-02-11T00:00:00Z");
    assert_eq!(after.vectors.len(), 1);
    assert_eq!(after.vectors[0].affinity_id, 11);
    assert_eq!(
        decode_vector(&after.vectors[0].embedding),
        Some(floats(&[0.0, 1.0, 0.0, 0.0]))
    );
}

fn single() -> AffinityStore {
    store(vec![example(
        10,
        "snapshot query",
        "snapshot raw",
        "old-model",
        3,
        ["2026-01-10T00:00:00Z", "2026-01-01T00:00:00Z", "2026-01-11T00:00:00Z"],
    )])
}

#[test]
fn affinity_reembedding_preserves_schema_max_history_across_a_lower_active_cap() {
    let before = single();
    let plan = list_affinities_for_reembedding(&before.affinities).unwrap();
    let after = replace_affinity_vectors(
        before,
        &"active-model".to_string(),
        4,
        &plan.fingerprint,
        &vec![(10, floats(&X))],
    )
    .unwrap();
    assert_eq!(after.affinities[0].reinforcement_count, 3);
    let policy = MemoryPolicy::default();
    assert_eq!(f64::from_bits(policy.affinity_reinforcement_factor(3)), 1.0);
}

#[test]
fn affinity_reembedding_snapshot_rejects_concurrent_insert_update_and_delete() {
    let plan = list_affinities_for_reembedding(&single().affinities).unwrap();
    let mut inserted = single();
    inserted.affinities.push(example(
        11,
        "inserted query",
        "inserted raw",
        "old-model",
        1,
        ["2026-02-10T00:00:00Z", "2026-02-01T00:00:00Z", "2026-02-11T00:00:00Z"],
    ));
    let mut updated = single();
    updated.affinities[0].raw_query_text = "concurrent raw".into();
    updated.affinities[0].updated_at = moment("2026-03-11T00:00:00Z");
    let deleted = AffinityStore { affinities: Vec::new(), vectors: Vec::new() };
    for mutated in [inserted, updated, deleted] {
        assert!(matches!(
            replace_affinity_vectors(
                mutated,
                &"active-model".to_string(),
                4,
                &plan.fingerprint,
                &vec![(10, floats(&[0.0, 1.0, 0.0, 0.0]))],
            ),
            Err(CoreError::Conflict(message))
                if message.contains("changed during affinity re-embedding")
        ));
    }
}

#[test]
fn every_planned_vector_must_be_supplied_and_fit() {
    let plan = list_affinities_for_reembedding(&single().affinities).unwrap();
    let model = "active-model".to_string();
    let run = |vectors: Vec<(Id, Vec<u32>)>| {
        replace_affinity_vectors(single(), &model, 4, &plan.fingerprint, &vectors)
    };
    assert!(run(Vec::new()).is_err());
    assert!(run(vec![(10, floats(&[1.0]))]).is_err());
    assert!(run(vec![(10, floats(&[f32::NAN, 0.0, 0.0, 0.0]))]).is_err());
    assert!(run(vec![(10, floats(&X)), (10, floats(&X))]).is_err());
    assert!(run(vec![(11, floats(&X))]).is_err());
    assert!(run(vec![(10, floats(&X))]).is_ok());
}

#[test]
fn vectors_of_another_model_are_removed_and_their_examples_stay() {
    let mut rows = single();
    rows.vectors.push(AffinityVector { affinity_id: 99, embedding: Vec::new() });
    let (kept, n) = remove_stale_affinity_vectors(rows.clone(), "old-model");
    assert_eq!((kept.vectors.len(), n), (1, 1));
    let (kept, n) = remove_stale_affinity_vectors(rows, "active-model");
    assert_eq!((kept.vectors.len(), kept.affinities.len(), n), (0, 1, 2));
}
