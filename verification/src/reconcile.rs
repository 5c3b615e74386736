//! Bringing all of adaptive memory in step with content that was reindexed.
use vstd::prelude::*;

use crate::affinity_merge::{self, AffinityStore, PrecisionUpdate, StoreSpec};
use crate::error::{CoreError, CoreFault};
use crate::ids::Id;
use crate::memory_model::SearchResultTarget;
use crate::ordering;
use crate::sessions::{Signals, SignalsSpec};
use crate::signal_cleanup;
use crate::signals::{self, Affinity, AffinityVector, ContentIndex, SessionResult, Vectors};
use crate::text;

verus! {

/// What a reconciliation changed.
#[derive(Debug, Clone, Copy, PartialEq, Eq, Structural)]
pub struct SignalReconcileResult {
    pub entry_stats_deleted: u64,
    pub affinities_deleted: u64,
    pub feedback_deleted: u64,
    pub session_results_deleted: u64,
    pub affinities_degraded: u64,
    pub session_results_degraded: u64,
    pub vectors_deleted: u64,
}

impl Default for SignalReconcileResult {
    fn default() -> (r: SignalReconcileResult)
        ensures
            r == no_change(),
    {
        SignalReconcileResult {
            entry_stats_deleted: 0,
            affinities_deleted: 0,
            feedback_deleted: 0,
            session_results_deleted: 0,
            affinities_degraded: 0,
            session_results_degraded: 0,
            vectors_deleted: 0,
        }
    }
}

/// Nothing was changed.
pub open spec fn no_change() -> SignalReconcileResult {
    SignalReconcileResult {
        entry_stats_deleted: 0,
        affinities_deleted: 0,
        feedback_deleted: 0,
        session_results_deleted: 0,
        affinities_degraded: 0,
        session_results_degraded: 0,
        vectors_deleted: 0,
    }
}

/// The block, where there is one, belongs to the entry.
pub open spec fn block_valid(index: ContentIndex, entry: Id, block: Option<Id>) -> bool {
    block matches Some(b) ==> index.owns_block(entry, b)
}

/// The chunk, where there is one, stands in a block of the entry, and in the
/// given one where there is one.
pub open spec fn chunk_valid(
    index: ContentIndex,
    entry: Id,
    block: Option<Id>,
    chunk: Option<Id>,
) -> bool {
    chunk matches Some(c) ==> exists|b: Id| #[trigger]
        index.owns_chunk(entry, b, c) && (block is None || block == Some(b))
}

/// The example's block is not one of its entry.
pub open spec fn stale_block(index: ContentIndex) -> spec_fn(Affinity) -> bool {
    |a: Affinity| !block_valid(index, a.entry_id, a.block_id)
}

/// The example's chunk is not one of its entry and block.
pub open spec fn stale_chunk(index: ContentIndex) -> spec_fn(Affinity) -> bool {
    |a: Affinity| !chunk_valid(index, a.entry_id, a.block_id, a.chunk_id)
}

/// Where examples with a stale block go: to their entry.
pub open spec fn stale_block_updates(rows: Seq<Affinity>, index: ContentIndex) -> Seq<
    PrecisionUpdate,
> {
    ordering::in_order(
        signal_cleanup::picked(rows, stale_block(index), false, rows.len()),
        signal_cleanup::by_example(),
    )
}

/// Where examples with a stale chunk go: to their block.
pub open spec fn stale_chunk_updates(rows: Seq<Affinity>, index: ContentIndex) -> Seq<
    PrecisionUpdate,
> {
    ordering::in_order(
        signal_cleanup::picked(rows, stale_chunk(index), true, rows.len()),
        signal_cleanup::by_example(),
    )
}

/// A search result without its block and chunk, where the block is stale.
pub open spec fn block_checked(r: SessionResult, index: ContentIndex) -> SessionResult {
    if block_valid(index, r.target.entry_id, r.target.matched_block_id) {
        r
    } else {
        SessionResult {
            target: SearchResultTarget {
                matched_block_id: None,
                matched_chunk_id: None,
                ..r.target
            },
            ..r
        }
    }
}

/// A search result without its chunk, where the chunk is stale.
pub open spec fn chunk_checked(r: SessionResult, index: ContentIndex) -> SessionResult {
    let t = r.target;
    if chunk_valid(index, t.entry_id, t.matched_block_id, t.matched_chunk_id) {
        r
    } else {
        SessionResult { target: SearchResultTarget { matched_chunk_id: None, ..t }, ..r }
    }
}

/// How many of the first `n` results have a stale block.
pub open spec fn stale_blocks(results: Seq<SessionResult>, index: ContentIndex, n: nat) -> nat
    decreases n,
{
    if n == 0 {
        0
    } else {
        let t = results[n - 1].target;
        stale_blocks(results, index, (n - 1) as nat) + if block_valid(
            index,
            t.entry_id,
            t.matched_block_id,
        ) {
            0nat
        } else {
            1nat
        }
    }
}

/// How many of the first `n` results have a stale chunk.
pub open spec fn stale_chunks(results: Seq<SessionResult>, index: ContentIndex, n: nat) -> nat
    decreases n,
{
    if n == 0 {
        0
    } else {
        let t = results[n - 1].target;
        stale_chunks(results, index, (n - 1) as nat) + if chunk_valid(
            index,
            t.entry_id,
            t.matched_block_id,
            t.matched_chunk_id,
        ) {
            0nat
        } else {
            1nat
        }
    }
}

/// The vectors that have their example.
pub open spec fn owned_vectors(store: StoreSpec) -> Vectors {
    store.vectors.filter(
        |v: (Id, Seq<u8>)| affinity_merge::has_example(store.affinities, v.0),
    )
}

/// Memory after a reconciliation, and how much of it changed.
#[verifier::ext_equal]
pub struct Reconciled {
    pub signals: SignalsSpec,
    pub entry_stats_deleted: nat,
    pub affinities_deleted: nat,
    pub feedback_deleted: nat,
    pub session_results_deleted: nat,
    pub affinities_degraded: nat,
    pub session_results_degraded: nat,
    pub vectors_deleted: nat,
}

/// Memory in step with what the index holds: rows of entries that are gone are
/// removed; examples with a stale block go to their entry and then those with
/// a stale chunk to their block; search results lose a stale block or chunk;
/// and vectors without an example are removed.
pub open spec fn reconciled(sig: SignalsSpec, index: ContentIndex) -> Result<
    Reconciled,
    CoreFault,
> {
    let entries = index.entries@;
    let stats = signal_cleanup::rows_of(sig.stats, entries, true);
    let receipts = signal_cleanup::rows_of(sig.receipts, entries, true);
    let results = signal_cleanup::rows_of(sig.results, entries, true);
    let rows = signal_cleanup::rows_of(sig.store.affinities, entries, true);
    let first = stale_block_updates(rows, index);
    match affinity_merge::degrade(
        StoreSpec { affinities: rows, vectors: sig.store.vectors },
        first,
        first.len(),
    ) {
        Err(e) => Err(e),
        Ok(d1) => {
            let second = stale_chunk_updates(d1.store.affinities, index);
            match affinity_merge::degrade(d1.store, second, second.len()) {
                Err(e) => Err(e),
                Ok(d2) => {
                    let checked = results.map_values(|r: SessionResult| block_checked(r, index));
                    let vectors = owned_vectors(d2.store);
                    Ok(
                        Reconciled {
                            signals: SignalsSpec {
                                sessions: sig.sessions,
                                results: checked.map_values(
                                    |r: SessionResult| chunk_checked(r, index),
                                ),
                                receipts,
                                stats,
                                store: StoreSpec { affinities: d2.store.affinities, vectors },
                            },
                            entry_stats_deleted: (sig.stats.len() - stats.len()) as nat,
                            affinities_deleted: (sig.store.affinities.len() - rows.len()) as nat,
                            feedback_deleted: (sig.receipts.len() - receipts.len()) as nat,
                            session_results_deleted: (sig.results.len() - results.len()) as nat,
                            affinities_degraded: d1.rows + d2.rows,
                            session_results_degraded: stale_blocks(results, index, results.len())
                                + stale_chunks(checked, index, checked.len()),
                            vectors_deleted: (d1.vectors_deleted + d2.vectors_deleted + (
                            d2.store.vectors.len() - vectors.len())) as nat,
                        },
                    )
                },
            }
        },
    }
}

fn is_block_valid(index: &ContentIndex, entry: Id, block: Option<Id>) -> (r: bool)
    ensures
        r == block_valid(*index, entry, block),
{
    match block {
        Some(b) => index.is_block_of(entry, b),
        None => true,
    }
}

fn is_chunk_valid(index: &ContentIndex, entry: Id, block: Option<Id>, chunk: Option<Id>) -> (r: bool)
    ensures
        r == chunk_valid(*index, entry, block, chunk),
{
    let c = match chunk {
        Some(c) => c,
        None => {
            return true;
        },
    };
    match block {
        None => {
            proof {
                index.law_chunk_parent(entry, c);
            }
            index.parent_of_chunk(entry, c).is_some()
        },
        Some(b) => {
            if !index.is_block_of(entry, b) {
                return false;
            }
            let mut i: usize = 0;
            while i < index.chunks.len()
                invariant
                    i <= index.chunks.len(),
                    chunk == Some(c),
                    block == Some(b),
                    index.owns_block(entry, b),
                    forall|j: int| 0 <= j < i ==> #[trigger] index.chunks@[j] != (c, b),
                decreases index.chunks.len() - i,
            {
                if index.chunks[i].0 == c && index.chunks[i].1 == b {
                    proof {
                        assert(index.chunks@[i as int] == (c, b));
                        assert(index.chunks@.contains((c, b)));
                        assert(index.owns_chunk(entry, b, c));
                        assert(index.owns_chunk(entry, b, chunk->0));
                    }
                    return true;
                }
                i += 1;
            }
            proof {
                assert(!index.owns_chunk(entry, b, c));
            }
            false
        },
    }
}

fn pick_stale_blocks(rows: &Vec<Affinity>, index: &ContentIndex) -> (r: Vec<PrecisionUpdate>)
    ensures
        r@ == signal_cleanup::picked(rows@, stale_block(*index), false, rows@.len()),
        r.len() <= rows.len(),
{
    let mut out: Vec<PrecisionUpdate> = Vec::new();
    let mut i: usize = 0;
    while i < rows.len()
        invariant
            i <= rows.len(),
            out.len() <= i,
            out@ == signal_cleanup::picked(rows@, stale_block(*index), false, i as nat),
        decreases rows.len() - i,
    {
        let row = &rows[i];
        if !is_block_valid(index, row.entry_id, row.block_id) {
            out.push(PrecisionUpdate { affinity_id: row.id, block_id: None, chunk_id: None });
        }
        i += 1;
    }
    out
}

fn pick_stale_chunks(rows: &Vec<Affinity>, index: &ContentIndex) -> (r: Vec<PrecisionUpdate>)
    ensures
        r@ == signal_cleanup::picked(rows@, stale_chunk(*index), true, rows@.len()),
        r.len() <= rows.len(),
{
    let mut out: Vec<PrecisionUpdate> = Vec::new();
    let mut i: usize = 0;
    while i < rows.len()
        invariant
            i <= rows.len(),
            out.len() <= i,
            out@ == signal_cleanup::picked(rows@, stale_chunk(*index), true, i as nat),
        decreases rows.len() - i,
    {
        let row = &rows[i];
        if !is_chunk_valid(index, row.entry_id, row.block_id, row.chunk_id) {
            out.push(
                PrecisionUpdate { affinity_id: row.id, block_id: row.block_id, chunk_id: None },
            );
        }
        i += 1;
    }
    out
}

fn check_blocks(results: &Vec<SessionResult>, index: &ContentIndex) -> (r: (
    Vec<SessionResult>,
    u64,
))
    ensures
        r.0@ == results@.map_values(|r: SessionResult| block_checked(r, *index)),
        r.1 == stale_blocks(results@, *index, results@.len()),
        r.1 <= results.len(),
{
    let ghost change = |r: SessionResult| block_checked(r, *index);
    let ghost all = results@.map_values(change);
    let mut out: Vec<SessionResult> = Vec::new();
    let mut count: u64 = 0;
    let mut i: usize = 0;
    while i < results.len()
        invariant
            i <= results.len(),
            count <= i,
            change == (|r: SessionResult| block_checked(r, *index)),
            all == results@.map_values(change),
            out@ == all.take(i as int),
            count == stale_blocks(results@, *index, i as nat),
        decreases results.len() - i,
    {
        let mut r = results[i];
        if !is_block_valid(index, r.target.entry_id, r.target.matched_block_id) {
            r.target.matched_block_id = None;
            r.target.matched_chunk_id = None;
            count += 1;
        }
        out.push(r);
        proof {
            assert(all.take(i + 1) =~= all.take(i as int).push(all[i as int]));
        }
        i += 1;
    }
    proof {
        assert(all.take(i as int) =~= all);
    }
    (out, count)
}

fn check_chunks(results: &Vec<SessionResult>, index: &ContentIndex) -> (r: (
    Vec<SessionResult>,
    u64,
))
    ensures
        r.0@ == results@.map_values(|r: SessionResult| chunk_checked(r, *index)),
        r.1 == stale_chunks(results@, *index, results@.len()),
        r.1 <= results.len(),
{
    let ghost change = |r: SessionResult| chunk_checked(r, *index);
    let ghost all = results@.map_values(change);
    let mut out: Vec<SessionResult> = Vec::new();
    let mut count: u64 = 0;
    let mut i: usize = 0;
    while i < results.len()
        invariant
            i <= results.len(),
            count <= i,
            change == (|r: SessionResult| chunk_checked(r, *index)),
            all == results@.map_values(change),
            out@ == all.take(i as int),
            count == stale_chunks(results@, *index, i as nat),
        decreases results.len() - i,
    {
        let mut r = results[i];
        if !is_chunk_valid(
            index,
            r.target.entry_id,
            r.target.matched_block_id,
            r.target.matched_chunk_id,
        ) {
            r.target.matched_chunk_id = None;
            count += 1;
        }
        out.push(r);
        proof {
            assert(all.take(i + 1) =~= all.take(i as int).push(all[i as int]));
        }
        i += 1;
    }
    proof {
        assert(all.take(i as int) =~= all);
    }
    (out, count)
}

fn is_example(rows: &Vec<Affinity>, id: Id) -> (r: bool)
    ensures
        r == affinity_merge::has_example(rows@, id),
{
    let mut j: usize = 0;
    while j < rows.len()
        invariant
            j <= rows.len(),
            forall|k: int| 0 <= k < j ==> (#[trigger] rows@[k]).id != id,
        decreases rows.len() - j,
    {
        if rows[j].id == id {
            return true;
        }
        j += 1;
    }
    false
}

fn drop_orphans(store: AffinityStore) -> (r: (AffinityStore, usize))
    ensures
        r.0@.affinities == store@.affinities,
        r.0@.vectors == owned_vectors(store@),
        r.1 == store@.vectors.len() - owned_vectors(store@).len(),
        owned_vectors(store@).len() <= store@.vectors.len(),
{
    let ghost before = store@;
    let AffinityStore { affinities, vectors } = store;
    let ghost keep = |v: (Id, Seq<u8>)| affinity_merge::has_example(before.affinities, v.0);
    let total = vectors.len();
    let ghost held = vectors@;
    let ghost all = signals::vectors_of(held);
    let mut kept: Vec<AffinityVector> = Vec::new();
    let mut dropped: usize = 0;
    proof {
        assert(all.take(0).filter(keep) =~= Seq::empty()) by {
            reveal(Seq::filter);
        }
        assert(signals::vectors_of(kept@) =~= Seq::empty());
    }
    for row in it: vectors
        invariant
            it.seq() == held,
            all == signals::vectors_of(held),
            before.affinities == affinities@,
            keep == (|v: (Id, Seq<u8>)| affinity_merge::has_example(before.affinities, v.0)),
            signals::vectors_of(kept@) == all.take(it.index() as int).filter(keep),
            kept.len() + dropped == it.index(),
            held.len() == total,
    {
        proof {
            let i = it.index() as int;
            assert(all[i] == (row.affinity_id, row.embedding@));
            signals::lemma_filter_take(all, i, keep);
        }
        if is_example(&affinities, row.affinity_id) {
            let ghost old_kept = kept@;
            let ghost pair = (row.affinity_id, row.embedding@);
            kept.push(row);
            proof {
                assert(signals::vectors_of(kept@) =~= signals::vectors_of(old_kept).push(pair));
            }
        } else {
            dropped += 1;
        }
    }
    proof {
        assert(all.take(all.len() as int) =~= all);
    }
    (AffinityStore { affinities, vectors: kept }, dropped)
}

/// The counts that a reconciliation gives cannot overflow.
pub open spec fn fits(sig: SignalsSpec) -> bool {
    &&& 2 * sig.results.len() <= u64::MAX
    &&& 4 * sig.store.affinities.len() + sig.store.vectors.len() <= u64::MAX
}

/// Bring memory in step with the index.
pub fn reconcile_content_references(sig: Signals, index: &ContentIndex) -> (r: Result<
    (Signals, SignalReconcileResult),
    CoreError,
>)
    requires
        fits(sig@),
    ensures
        match r {
            Ok((after, counts)) => reconciled(sig@, *index) == Ok::<Reconciled, CoreFault>(
                Reconciled {
                    signals: after@,
                    entry_stats_deleted: counts.entry_stats_deleted as nat,
                    affinities_deleted: counts.affinities_deleted as nat,
                    feedback_deleted: counts.feedback_deleted as nat,
                    session_results_deleted: counts.session_results_deleted as nat,
                    affinities_degraded: counts.affinities_degraded as nat,
                    session_results_degraded: counts.session_results_degraded as nat,
                    vectors_deleted: counts.vectors_deleted as nat,
                },
            ),
            Err(e) => reconciled(sig@, *index) == Err::<Reconciled, CoreFault>(e@),
        },
{
    let ghost before = sig@;
    let Signals { sessions, results, receipts, stats, store } = sig;
    let AffinityStore { affinities, vectors } = store;
    let (all_stats, all_receipts) = (stats.len(), receipts.len());
    let (all_results, all_affinities) = (results.len(), affinities.len());
    let stats = signal_cleanup::keep_rows(stats, &index.entries, true);
    let receipts = signal_cleanup::keep_rows(receipts, &index.entries, true);
    let results = signal_cleanup::keep_rows(results, &index.entries, true);
    let affinities = signal_cleanup::keep_rows(affinities, &index.entries, true);
    let affinities_deleted = all_affinities - affinities.len();
    let first = signal_cleanup::put_in_order(pick_stale_blocks(&affinities, index));
    let store = AffinityStore { affinities, vectors };
    let (store, degraded1, merged1) = match affinity_merge::degrade_affinity_precision(
        store,
        &first,
    ) {
        Ok(done) => done,
        Err(e) => {
            return Err(e);
        },
    };
    proof {
        let start = StoreSpec {
            affinities: signal_cleanup::rows_of(
                before.store.affinities,
                index.entries@,
                true,
            ),
            vectors: before.store.vectors,
        };
        lemma_degrade_sizes(start, first@, first@.len());
    }
    let second = signal_cleanup::put_in_order(pick_stale_chunks(&store.affinities, index));
    let ghost middle = store@;
    let (store, degraded2, merged2) = match affinity_merge::degrade_affinity_precision(
        store,
        &second,
    ) {
        Ok(done) => done,
        Err(e) => {
            return Err(e);
        },
    };
    proof {
        lemma_degrade_sizes(middle, second@, second@.len());
    }
    let (checked, blocks) = check_blocks(&results, index);
    let (done, chunks) = check_chunks(&checked, index);
    let (store, orphans) = drop_orphans(store);
    let counts = SignalReconcileResult {
        entry_stats_deleted: (all_stats - stats.len()) as u64,
        affinities_deleted: affinities_deleted as u64,
        feedback_deleted: (all_receipts - receipts.len()) as u64,
        session_results_deleted: (all_results - results.len()) as u64,
        affinities_degraded: degraded1 + degraded2,
        session_results_degraded: blocks + chunks,
        vectors_deleted: merged1 + merged2 + orphans as u64,
    };
    let after = Signals { sessions, results: done, receipts, stats, store };
    Ok((after, counts))
}

/// An update never adds an example or a vector.
proof fn lemma_degrade_sizes(store: StoreSpec, updates: Seq<PrecisionUpdate>, n: nat)
    requires
        n <= updates.len(),
        affinity_merge::degrade(store, updates, n) is Ok,
    ensures
        ({
            let d = affinity_merge::degrade(store, updates, n)->Ok_0;
            &&& d.store.affinities.len() <= store.affinities.len()
            &&& d.store.vectors.len() <= store.vectors.len() + n
            &&& d.rows <= n
            &&& d.vectors_deleted <= n
        }),
    decreases n,
{
    if n > 0 {
        lemma_degrade_sizes(store, updates, (n - 1) as nat);
        let d = affinity_merge::degrade(store, updates, (n - 1) as nat)->Ok_0;
        let u = updates[n - 1];
        let rows = d.store.affinities;
        affinity_merge::lemma_first_row(rows, |a: Affinity| a.id == u.affinity_id, rows.len());
        if let Some(at) = affinity_merge::row_of_id(rows, u.affinity_id) {
            let degraded = rows[at];
            affinity_merge::lemma_first_row(
                rows,
                |a: Affinity|
                    a.id != u.affinity_id && a.has_target(
                        degraded.query_hash@,
                        degraded.embedding_model@,
                        degraded.entry_id,
                        u.block_id,
                        u.chunk_id,
                    ),
                rows.len(),
            );
            if let Some(k) = affinity_merge::collision_of(rows, degraded, u) {
                let survivor = rows[k];
                signals::lemma_filter_rows(
                    d.store.vectors,
                    |v: (Id, Seq<u8>)| v.0 != survivor.id && v.0 != degraded.id,
                );
            }
        }
    }
}

/// The vector's example is gone, or was learned with another model.
pub open spec fn is_stale(rows: Seq<Affinity>, id: Id, model: Seq<char>) -> bool {
    !affinity_merge::has_example(rows, id) || exists|j: int|
        0 <= j < rows.len() && (#[trigger] rows[j]).id == id && rows[j].embedding_model@ != model
}

/// The store without stale vectors.
pub open spec fn without_stale(store: StoreSpec, model: Seq<char>) -> StoreSpec {
    StoreSpec {
        affinities: store.affinities,
        vectors: store.vectors.filter(
            |v: (Id, Seq<u8>)| !is_stale(store.affinities, v.0, model),
        ),
    }
}

fn find_stale(rows: &Vec<Affinity>, id: Id, model: &str) -> (r: bool)
    ensures
        r == is_stale(rows@, id, model@),
{
    let mut found = false;
    let mut j: usize = 0;
    while j < rows.len()
        invariant
            j <= rows.len(),
            found ==> affinity_merge::has_example(rows@, id),
            !found ==> forall|k: int| 0 <= k < j ==> (#[trigger] rows@[k]).id != id,
            forall|k: int|
                0 <= k < j && (#[trigger] rows@[k]).id == id ==> rows@[k].embedding_model@ == model@,
        decreases rows.len() - j,
    {
        if rows[j].id == id {
            if !text::same(rows[j].embedding_model.as_str(), model) {
                return true;
            }
            proof {
                assert(rows@[j as int].id == id);
            }
            found = true;
        }
        j += 1;
    }
    !found
}

/// Remove the vectors that cannot take part under the active model. Their
/// examples stay, to be embedded anew.
pub fn remove_stale_affinity_vectors(store: AffinityStore, model: &str) -> (r: (
    AffinityStore,
    u64,
))
    ensures
        r.0@ == without_stale(store@, model@),
        r.1 == store@.vectors.len() - without_stale(store@, model@).vectors.len(),
{
    let ghost before = store@;
    let AffinityStore { affinities, vectors } = store;
    let ghost keep = |v: (Id, Seq<u8>)| !is_stale(before.affinities, v.0, model@);
    let total = vectors.len();
    let ghost held = vectors@;
    let ghost all = signals::vectors_of(held);
    let mut kept: Vec<AffinityVector> = Vec::new();
    let mut dropped: usize = 0;
    proof {
        assert(all.take(0).filter(keep) =~= Seq::empty()) by {
            reveal(Seq::filter);
        }
        assert(signals::vectors_of(kept@) =~= Seq::empty());
    }
    for row in it: vectors
        invariant
            it.seq() == held,
            all == signals::vectors_of(held),
            before.affinities == affinities@,
            keep == (|v: (Id, Seq<u8>)| !is_stale(before.affinities, v.0, model@)),
            signals::vectors_of(kept@) == all.take(it.index() as int).filter(keep),
            kept.len() + dropped == it.index(),
            held.len() == total,
    {
        proof {
            let i = it.index() as int;
            assert(all[i] == (row.affinity_id, row.embedding@));
            signals::lemma_filter_take(all, i, keep);
        }
        if find_stale(&affinities, row.affinity_id, model) {
            dropped += 1;
        } else {
            let ghost old_kept = kept@;
            let ghost pair = (row.affinity_id, row.embedding@);
            kept.push(row);
            proof {
                assert(signals::vectors_of(kept@) =~= signals::vectors_of(old_kept).push(pair));
            }
        }
    }
    proof {
        assert(all.take(all.len() as int) =~= all);
    }
    (AffinityStore { affinities, vectors: kept }, dropped as u64)
}

} // verus!
