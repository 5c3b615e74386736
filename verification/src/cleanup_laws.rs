//! What holds of memory after content has gone away.
use vstd::prelude::*;

use crate::affinity_merge::{self, Degraded, PrecisionUpdate, StoreSpec};
use crate::error::CoreFault;
use crate::ids::Id;
use crate::ordering;
use crate::reconcile::{self, Reconciled};
use crate::sessions::SignalsSpec;
use crate::signal_cleanup::{self, OfEntry};
use crate::signals::{self, Affinity, ContentIndex, SessionResult};

verus! {

/// The update that a picked row gets.
pub open spec fn update_of(a: Affinity, keep_block: bool) -> PrecisionUpdate {
    if keep_block {
        signal_cleanup::to_block(a)
    } else {
        signal_cleanup::to_entry(a)
    }
}

proof fn lemma_picked(
    rows: Seq<Affinity>,
    wanted: spec_fn(Affinity) -> bool,
    keep_block: bool,
    n: nat,
)
    requires
        n <= rows.len(),
    ensures
        ({
            let out = signal_cleanup::picked(rows, wanted, keep_block, n);
            &&& forall|i: int|
                0 <= i < n && wanted(#[trigger] rows[i]) ==> out.contains(
                    update_of(rows[i], keep_block),
                )
            &&& forall|k: int|
                #![trigger out[k]]
                0 <= k < out.len() ==> exists|i: int|
                    0 <= i < n && wanted(#[trigger] rows[i]) && out[k] == update_of(
                        rows[i],
                        keep_block,
                    )
        }),
    decreases n,
{
    if n > 0 {
        let m = (n - 1) as nat;
        lemma_picked(rows, wanted, keep_block, m);
        let before = signal_cleanup::picked(rows, wanted, keep_block, m);
        let out = signal_cleanup::picked(rows, wanted, keep_block, n);
        if wanted(rows[n - 1]) {
            assert(out[out.len() - 1] == update_of(rows[n - 1], keep_block));
        }
        assert forall|i: int| 0 <= i < n && wanted(#[trigger] rows[i]) implies out.contains(
            update_of(rows[i], keep_block),
        ) by {
            if i < n - 1 {
                let u = update_of(rows[i], keep_block);
                assert(before.contains(u));
                let k = choose|k: int| 0 <= k < before.len() && before[k] == u;
                assert(out[k] == u);
            }
        }
        assert forall|k: int| #![trigger out[k]] 0 <= k < out.len() implies exists|i: int|
            0 <= i < n && wanted(#[trigger] rows[i]) && out[k] == update_of(rows[i], keep_block) by {
            if k < before.len() {
                assert(out[k] == before[k]);
                let i = choose|i: int|
                    0 <= i < m && wanted(#[trigger] rows[i]) && before[k] == update_of(
                        rows[i],
                        keep_block,
                    );
                assert(out[k] == update_of(rows[i], keep_block));
            } else {
                assert(out[k] == update_of(rows[n - 1], keep_block));
            }
        }
    }
}

/// The updates for picked rows: each picked row has one, and each is one of a
/// picked row.
pub(crate) proof fn lemma_updates(
    rows: Seq<Affinity>,
    wanted: spec_fn(Affinity) -> bool,
    keep_block: bool,
)
    ensures
        ({
            let out = ordering::in_order(
                signal_cleanup::picked(rows, wanted, keep_block, rows.len()),
                signal_cleanup::by_example(),
            );
            &&& forall|i: int|
                0 <= i < rows.len() && wanted(#[trigger] rows[i]) ==> out.contains(
                    update_of(rows[i], keep_block),
                )
            &&& forall|k: int|
                #![trigger out[k]]
                0 <= k < out.len() ==> exists|i: int|
                    0 <= i < rows.len() && wanted(#[trigger] rows[i]) && out[k] == update_of(
                        rows[i],
                        keep_block,
                    )
        }),
{
    let raw = signal_cleanup::picked(rows, wanted, keep_block, rows.len());
    let out = ordering::in_order(raw, signal_cleanup::by_example());
    lemma_picked(rows, wanted, keep_block, rows.len());
    ordering::lemma_in_order_members(raw, signal_cleanup::by_example());
    assert forall|k: int| #![trigger out[k]] 0 <= k < out.len() implies exists|i: int|
        0 <= i < rows.len() && wanted(#[trigger] rows[i]) && out[k] == update_of(
            rows[i],
            keep_block,
        ) by {
        assert(out.contains(out[k]));
        let j = choose|j: int| 0 <= j < raw.len() && raw[j] == out[k];
        let i = choose|i: int|
            0 <= i < rows.len() && wanted(#[trigger] rows[i]) && raw[j] == update_of(
                rows[i],
                keep_block,
            );
        assert(out[k] == update_of(rows[i], keep_block));
    }
}

/// A property of a target: entry, block and chunk.
pub type TargetTest = spec_fn(Id, Option<Id>, Option<Id>) -> bool;

/// The rows that updates from the `n`th on have yet to see: each is good or is
/// listed, and each update that is left makes its row good.
pub open spec fn pending(
    rows: Seq<Affinity>,
    updates: Seq<PrecisionUpdate>,
    good: TargetTest,
    n: int,
) -> bool {
    &&& forall|i: int|
        0 <= i < rows.len() ==> good(
            (#[trigger] rows[i]).entry_id,
            rows[i].block_id,
            rows[i].chunk_id,
        ) || exists|k: int|
            n <= k < updates.len() && (#[trigger] updates[k]).affinity_id == rows[i].id
    &&& forall|i: int, k: int|
        0 <= i < rows.len() && n <= k < updates.len() && (#[trigger] rows[i]).id == (
        #[trigger] updates[k]).affinity_id ==> good(
            rows[i].entry_id,
            updates[k].block_id,
            updates[k].chunk_id,
        )
}

proof fn lemma_pending_step(
    d: Degraded,
    updates: Seq<PrecisionUpdate>,
    good: TargetTest,
    n: int,
)
    requires
        0 <= n < updates.len(),
        affinity_merge::distinct_ids(d.store.affinities),
        pending(d.store.affinities, updates, good, n),
        affinity_merge::degrade_one(d, updates[n]) is Ok,
    ensures
        pending(
            affinity_merge::degrade_one(d, updates[n])->Ok_0.store.affinities,
            updates,
            good,
            n + 1,
        ),
{
    let rows = d.store.affinities;
    let u = updates[n];
    let after = affinity_merge::degrade_one(d, u)->Ok_0.store.affinities;
    affinity_merge::lemma_first_row(rows, |a: Affinity| a.id == u.affinity_id, rows.len());
    match affinity_merge::row_of_id(rows, u.affinity_id) {
        None => {
            assert forall|i: int| 0 <= i < rows.len() implies good(
                (#[trigger] rows[i]).entry_id,
                rows[i].block_id,
                rows[i].chunk_id,
            ) || exists|k: int|
                n + 1 <= k < updates.len() && (#[trigger] updates[k]).affinity_id == rows[i].id by {
                assert(rows[i].id != u.affinity_id);
                if !good(rows[i].entry_id, rows[i].block_id, rows[i].chunk_id) {
                    let k = choose|k: int|
                        n <= k < updates.len() && (#[trigger] updates[k]).affinity_id
                            == rows[i].id;
                    assert(k != n);
                }
            }
        },
        Some(at) => {
            let degraded = rows[at];
            assert(degraded.id == u.affinity_id);
            assert(good(degraded.entry_id, u.block_id, u.chunk_id));
            affinity_merge::lemma_first_row(
                rows,
                |a: Affinity|
                    a.id != u.affinity_id && a.has_target(
                        degraded.query_hash@,
                        degraded.embedding_model@,
                        degraded.entry_id,
                        u.block_id,
                        u.chunk_id,
                    ),
                rows.len(),
            );
            match affinity_merge::collision_of(rows, degraded, u) {
                None => {
                    assert forall|i: int| 0 <= i < after.len() implies good(
                        (#[trigger] after[i]).entry_id,
                        after[i].block_id,
                        after[i].chunk_id,
                    ) || exists|k: int|
                        n + 1 <= k < updates.len() && (#[trigger] updates[k]).affinity_id
                            == after[i].id by {
                        if i != at {
                            assert(after[i] == rows[i]);
                            assert(rows[i].id != u.affinity_id);
                            if !good(rows[i].entry_id, rows[i].block_id, rows[i].chunk_id) {
                                let k = choose|k: int|
                                    n <= k < updates.len() && (#[trigger] updates[k]).affinity_id
                                        == rows[i].id;
                                assert(k != n);
                            }
                        }
                    }
                    assert forall|i: int, k: int|
                        0 <= i < after.len() && n + 1 <= k < updates.len() && (
                        #[trigger] after[i]).id == (
                        #[trigger] updates[k]).affinity_id implies good(
                        after[i].entry_id,
                        updates[k].block_id,
                        updates[k].chunk_id,
                    ) by {
                        assert(rows[i].id == updates[k].affinity_id);
                    }
                },
                Some(s) => {
                    let mid = rows.update(s, affinity_merge::merged(rows[s], degraded));
                    assert(after == mid.remove(at));
                    assert forall|i: int| 0 <= i < after.len() implies good(
                        (#[trigger] after[i]).entry_id,
                        after[i].block_id,
                        after[i].chunk_id,
                    ) || exists|k: int|
                        n + 1 <= k < updates.len() && (#[trigger] updates[k]).affinity_id
                            == after[i].id by {
                        let j = if i < at {
                            i
                        } else {
                            i + 1
                        };
                        assert(after[i] == mid[j]);
                        assert(rows[j].id != u.affinity_id);
                        if j != s {
                            if !good(rows[j].entry_id, rows[j].block_id, rows[j].chunk_id) {
                                let k = choose|k: int|
                                    n <= k < updates.len() && (#[trigger] updates[k]).affinity_id
                                        == rows[j].id;
                                assert(k != n);
                            }
                        }
                    }
                    assert forall|i: int, k: int|
                        0 <= i < after.len() && n + 1 <= k < updates.len() && (
                        #[trigger] after[i]).id == (
                        #[trigger] updates[k]).affinity_id implies good(
                        after[i].entry_id,
                        updates[k].block_id,
                        updates[k].chunk_id,
                    ) by {
                        let j = if i < at {
                            i
                        } else {
                            i + 1
                        };
                        assert(after[i] == mid[j]);
                        assert(rows[j].id == updates[k].affinity_id);
                    }
                },
            }
        },
    }
}

proof fn lemma_pending(
    store: StoreSpec,
    updates: Seq<PrecisionUpdate>,
    good: TargetTest,
    n: nat,
)
    requires
        n <= updates.len(),
        store.well_formed(),
        pending(store.affinities, updates, good, 0),
        affinity_merge::degrade(store, updates, n) is Ok,
    ensures
        pending(
            affinity_merge::degrade(store, updates, n)->Ok_0.store.affinities,
            updates,
            good,
            n as int,
        ),
    decreases n,
{
    if n > 0 {
        let m = (n - 1) as nat;
        lemma_pending(store, updates, good, m);
        affinity_merge::law_degrade_keeps_well_formed(store, updates, m);
        lemma_pending_step(
            affinity_merge::degrade(store, updates, m)->Ok_0,
            updates,
            good,
            m as int,
        );
    }
}

/// After all updates, every example is good.
proof fn lemma_all_good(store: StoreSpec, updates: Seq<PrecisionUpdate>, good: TargetTest)
    requires
        store.well_formed(),
        pending(store.affinities, updates, good, 0),
        affinity_merge::degrade(store, updates, updates.len()) is Ok,
    ensures
        ({
            let rows = affinity_merge::degrade(
                store,
                updates,
                updates.len(),
            )->Ok_0.store.affinities;
            forall|i: int|
                0 <= i < rows.len() ==> good(
                    (#[trigger] rows[i]).entry_id,
                    rows[i].block_id,
                    rows[i].chunk_id,
                )
        }),
{
    lemma_pending(store, updates, good, updates.len());
}

pub(crate) proof fn lemma_rows_of<T: OfEntry>(rows: Seq<T>, ids: Seq<Id>, inside: bool)
    ensures
        forall|i: int|
            0 <= i < signal_cleanup::rows_of(rows, ids, inside).len() ==> ids.contains(
                (#[trigger] signal_cleanup::rows_of(rows, ids, inside)[i]).entry(),
            ) == inside && rows.contains(signal_cleanup::rows_of(rows, ids, inside)[i]),
{
    let keep = |r: T| ids.contains(r.entry()) == inside;
    let out = signal_cleanup::rows_of(rows, ids, inside);
    signals::lemma_filter_rows(rows, keep);
    assert forall|i: int| 0 <= i < out.len() implies ids.contains((#[trigger] out[i]).entry())
        == inside && rows.contains(out[i]) by {
        assert(out.contains(out[i]));
    }
}

/// A row of some of the entries is among the kept ones.
pub(crate) proof fn lemma_rows_kept<T: OfEntry>(rows: Seq<T>, ids: Seq<Id>, inside: bool, i: int)
    requires
        0 <= i < rows.len(),
        ids.contains(rows[i].entry()) == inside,
    ensures
        signal_cleanup::rows_of(rows, ids, inside).contains(rows[i]),
{
    signals::lemma_filter_rows(rows, |r: T| ids.contains(r.entry()) == inside);
    assert(rows.contains(rows[i]));
}

/// No row belongs to any of the entries.
pub open spec fn nothing_of<T: OfEntry>(rows: Seq<T>, entries: Seq<Id>) -> bool {
    forall|i: int| 0 <= i < rows.len() ==> !entries.contains((#[trigger] rows[i]).entry())
}

/// Every row of `before` that belongs to another entry is in `after`.
pub open spec fn others_stay<T: OfEntry>(before: Seq<T>, after: Seq<T>, entries: Seq<Id>) -> bool {
    forall|i: int|
        0 <= i < before.len() && !entries.contains((#[trigger] before[i]).entry())
            ==> after.contains(before[i])
}

/// Deleting entries leaves nothing of them in memory, keeps every row of all
/// others, and leaves no vector without its example.
pub proof fn law_deleted_entries_are_forgotten(sig: SignalsSpec, entries: Seq<Id>)
    ensures
        ({
            let after = signal_cleanup::without_entries(sig, entries);
            &&& nothing_of(after.stats, entries)
            &&& nothing_of(after.receipts, entries)
            &&& nothing_of(after.results, entries)
            &&& nothing_of(after.store.affinities, entries)
            &&& others_stay(sig.stats, after.stats, entries)
            &&& others_stay(sig.receipts, after.receipts, entries)
            &&& others_stay(sig.results, after.results, entries)
            &&& others_stay(sig.store.affinities, after.store.affinities, entries)
            &&& affinity_merge::vectors_have_examples(sig.store)
                ==> affinity_merge::vectors_have_examples(after.store)
        }),
{
    let after = signal_cleanup::without_entries(sig, entries);
    lemma_rows_of(sig.stats, entries, false);
    lemma_rows_of(sig.receipts, entries, false);
    lemma_rows_of(sig.results, entries, false);
    lemma_rows_of(sig.store.affinities, entries, false);
    assert forall|i: int| 0 <= i < sig.stats.len() && !entries.contains(
        (#[trigger] sig.stats[i]).entry(),
    ) implies after.stats.contains(sig.stats[i]) by {
        lemma_rows_kept(sig.stats, entries, false, i);
    }
    assert forall|i: int| 0 <= i < sig.receipts.len() && !entries.contains(
        (#[trigger] sig.receipts[i]).entry(),
    ) implies after.receipts.contains(sig.receipts[i]) by {
        lemma_rows_kept(sig.receipts, entries, false, i);
    }
    assert forall|i: int| 0 <= i < sig.results.len() && !entries.contains(
        (#[trigger] sig.results[i]).entry(),
    ) implies after.results.contains(sig.results[i]) by {
        lemma_rows_kept(sig.results, entries, false, i);
    }
    let rows = sig.store.affinities;
    assert forall|i: int| 0 <= i < rows.len() && !entries.contains(
        (#[trigger] rows[i]).entry(),
    ) implies after.store.affinities.contains(rows[i]) by {
        lemma_rows_kept(rows, entries, false, i);
    }
    if affinity_merge::vectors_have_examples(sig.store) {
        let keep = |v: (Id, Seq<u8>)| !signal_cleanup::example_of(rows, v.0, entries);
        affinity_merge::lemma_filter_vectors(sig.store.vectors, keep);
        assert forall|i: int| 0 <= i < after.store.vectors.len() implies
            affinity_merge::has_example(
            after.store.affinities,
            (#[trigger] after.store.vectors[i]).0,
        ) by {
            let v = after.store.vectors[i];
            let x = choose|x: int|
                0 <= x < sig.store.vectors.len() && sig.store.vectors[x] == v;
            assert(affinity_merge::has_example(rows, sig.store.vectors[x].0));
            let j = choose|j: int| 0 <= j < rows.len() && (#[trigger] rows[j]).id == v.0;
            assert(!entries.contains(rows[j].entry_id));
            lemma_rows_kept(rows, entries, false, j);
            let k = choose|k: int|
                0 <= k < after.store.affinities.len() && after.store.affinities[k] == rows[j];
            assert(after.store.affinities[k].id == v.0);
        }
    }
}

pub(crate) proof fn lemma_joined(updates: Seq<PrecisionUpdate>, more: Seq<PrecisionUpdate>, n: nat)
    requires
        n <= more.len(),
    ensures
        ({
            let out = signal_cleanup::joined(updates, more, n);
            &&& out.len() >= updates.len()
            &&& forall|k: int| 0 <= k < updates.len() ==> out[k] == updates[k]
            &&& forall|k: int|
                updates.len() <= k < out.len() ==> more.contains(#[trigger] out[k])
                    && !signal_cleanup::is_listed(updates, out[k].affinity_id)
            &&& forall|j: int|
                0 <= j < n && !signal_cleanup::is_listed(
                    updates,
                    (#[trigger] more[j]).affinity_id,
                ) ==> out.contains(more[j])
        }),
    decreases n,
{
    if n > 0 {
        let m = (n - 1) as nat;
        lemma_joined(updates, more, m);
        let before = signal_cleanup::joined(updates, more, m);
        let out = signal_cleanup::joined(updates, more, n);
        if !signal_cleanup::is_listed(updates, more[n - 1].affinity_id) {
            assert(out[out.len() - 1] == more[n - 1]);
            assert(more.contains(more[n - 1]));
        }
        assert forall|k: int| updates.len() <= k < out.len() implies more.contains(
            #[trigger] out[k],
        ) && !signal_cleanup::is_listed(updates, out[k].affinity_id) by {
            if k < before.len() {
                assert(out[k] == before[k]);
            }
        }
        assert forall|j: int|
            0 <= j < n && !signal_cleanup::is_listed(
                updates,
                (#[trigger] more[j]).affinity_id,
            ) implies out.contains(more[j]) by {
            if j < n - 1 {
                assert(before.contains(more[j]));
                let k = choose|k: int| 0 <= k < before.len() && before[k] == more[j];
                assert(out[k] == more[j]);
            }
        }
    }
}

/// A target that names neither the block nor any of the chunks.
pub open spec fn spared(block: Option<Id>, chunks: Seq<Id>) -> TargetTest {
    |entry: Id, b: Option<Id>, c: Option<Id>|
        (block is None || b != block) && (c is Some ==> !chunks.contains(c->0))
}

proof fn lemma_block_pending(rows: Seq<Affinity>, block: Id, chunks: Seq<Id>)
    requires
        affinity_merge::distinct_ids(rows),
    ensures
        pending(
            rows,
            signal_cleanup::block_and_chunk_updates(rows, block, chunks),
            spared(Some(block), chunks),
            0,
        ),
{
    let first = signal_cleanup::block_updates(rows, block);
    let second = signal_cleanup::chunk_updates(rows, chunks);
    let updates = signal_cleanup::block_and_chunk_updates(rows, block, chunks);
    let good = spared(Some(block), chunks);
    lemma_updates(rows, signal_cleanup::leads_to_block(block), false);
    lemma_updates(rows, signal_cleanup::leads_to_chunk(chunks), true);
    lemma_joined(first, second, second.len());
    assert forall|i: int| 0 <= i < rows.len() implies good(
        (#[trigger] rows[i]).entry_id,
        rows[i].block_id,
        rows[i].chunk_id,
    ) || exists|k: int|
        0 <= k < updates.len() && (#[trigger] updates[k]).affinity_id == rows[i].id by {
        if rows[i].block_id == Some(block) {
            let u = update_of(rows[i], false);
            assert(signal_cleanup::leads_to_block(block)(rows[i]));
            assert(first.contains(u));
            let k = choose|k: int| 0 <= k < first.len() && first[k] == u;
            assert(updates[k].affinity_id == rows[i].id);
        } else if rows[i].chunk_id is Some && chunks.contains(rows[i].chunk_id->0) {
            let u = update_of(rows[i], true);
            assert(signal_cleanup::leads_to_chunk(chunks)(rows[i]));
            assert(second.contains(u));
            let j = choose|j: int| 0 <= j < second.len() && second[j] == u;
            if signal_cleanup::is_listed(first, second[j].affinity_id) {
                let k = choose|k: int|
                    0 <= k < first.len() && (#[trigger] first[k]).affinity_id
                        == second[j].affinity_id;
                assert(updates[k].affinity_id == rows[i].id);
            } else {
                assert(updates.contains(second[j]));
                let k = choose|k: int| 0 <= k < updates.len() && updates[k] == second[j];
                assert(updates[k].affinity_id == rows[i].id);
            }
        }
    }
    assert forall|i: int, k: int|
        0 <= i < rows.len() && 0 <= k < updates.len() && (#[trigger] rows[i]).id == (
        #[trigger] updates[k]).affinity_id implies good(
        rows[i].entry_id,
        updates[k].block_id,
        updates[k].chunk_id,
    ) by {
        if k < first.len() {
            assert(updates[k] == first[k]);
            let x = choose|x: int|
                0 <= x < rows.len() && signal_cleanup::leads_to_block(block)(#[trigger] rows[x])
                    && first[k] == update_of(rows[x], false);
        } else {
            assert(second.contains(updates[k]));
            let j = choose|j: int| 0 <= j < second.len() && second[j] == updates[k];
            let x = choose|x: int|
                0 <= x < rows.len() && signal_cleanup::leads_to_chunk(chunks)(#[trigger] rows[x])
                    && second[j] == update_of(rows[x], true);
            if rows[x].block_id == Some(block) {
                assert(signal_cleanup::leads_to_block(block)(rows[x]));
                let u = update_of(rows[x], false);
                assert(first.contains(u));
                let y = choose|y: int| 0 <= y < first.len() && first[y] == u;
                assert(first[y].affinity_id == updates[k].affinity_id);
                assert(signal_cleanup::is_listed(first, updates[k].affinity_id));
            }
        }
    }
}

/// No search result names the block or any of the chunks.
pub open spec fn results_spared(
    results: Seq<SessionResult>,
    block: Option<Id>,
    chunks: Seq<Id>,
) -> bool {
    forall|i: int|
        0 <= i < results.len() ==> spared(block, chunks)(
            (#[trigger] results[i]).target.entry_id,
            results[i].target.matched_block_id,
            results[i].target.matched_chunk_id,
        )
}

/// No example names the block or any of the chunks.
pub open spec fn examples_spared(rows: Seq<Affinity>, block: Option<Id>, chunks: Seq<Id>) -> bool {
    forall|i: int|
        0 <= i < rows.len() ==> spared(block, chunks)(
            (#[trigger] rows[i]).entry_id,
            rows[i].block_id,
            rows[i].chunk_id,
        )
}

/// Once a block and its chunks are taken out of memory, no example and no
/// search result names them; the store stays well-formed; and receipts,
/// statistics and sessions are what they were.
pub proof fn law_degraded_block_is_forgotten(sig: SignalsSpec, block: Id, chunks: Seq<Id>)
    requires
        sig.store.well_formed(),
        signal_cleanup::block_degraded(sig, block, chunks) is Ok,
    ensures
        ({
            let after = signal_cleanup::block_degraded(sig, block, chunks)->Ok_0;
            &&& examples_spared(after.store.affinities, Some(block), chunks)
            &&& results_spared(after.results, Some(block), chunks)
            &&& after.store.well_formed()
            &&& affinity_merge::vectors_have_examples(sig.store)
                ==> affinity_merge::vectors_have_examples(after.store)
            &&& after.receipts == sig.receipts
            &&& after.stats == sig.stats
            &&& after.sessions == sig.sessions
        }),
{
    let rows = sig.store.affinities;
    let updates = signal_cleanup::block_and_chunk_updates(rows, block, chunks);
    let after = signal_cleanup::block_degraded(sig, block, chunks)->Ok_0;
    lemma_block_pending(rows, block, chunks);
    lemma_all_good(sig.store, updates, spared(Some(block), chunks));
    affinity_merge::law_degrade_keeps_well_formed(sig.store, updates, updates.len());
    assert forall|i: int| 0 <= i < after.results.len() implies spared(Some(block), chunks)(
        (#[trigger] after.results[i]).target.entry_id,
        after.results[i].target.matched_block_id,
        after.results[i].target.matched_chunk_id,
    ) by {
        let r = signal_cleanup::without_block(sig.results[i], block);
        assert(after.results[i] == signal_cleanup::without_chunks(r, chunks));
    }
}

/// Once chunks are taken out of memory, no example and no search result names
/// them, and every search result keeps its block; the store stays well-formed;
/// and receipts, statistics and sessions are what they were.
pub proof fn law_degraded_chunks_are_forgotten(sig: SignalsSpec, chunks: Seq<Id>)
    requires
        sig.store.well_formed(),
        signal_cleanup::chunks_degraded(sig, chunks) is Ok,
    ensures
        ({
            let after = signal_cleanup::chunks_degraded(sig, chunks)->Ok_0;
            &&& examples_spared(after.store.affinities, None, chunks)
            &&& results_spared(after.results, None, chunks)
            &&& after.results.len() == sig.results.len()
            &&& forall|i: int|
                0 <= i < sig.results.len() ==> (
                #[trigger] after.results[i]).target.matched_block_id
                    == sig.results[i].target.matched_block_id
            &&& after.store.well_formed()
            &&& affinity_merge::vectors_have_examples(sig.store)
                ==> affinity_merge::vectors_have_examples(after.store)
            &&& after.receipts == sig.receipts
            &&& after.stats == sig.stats
            &&& after.sessions == sig.sessions
        }),
{
    let rows = sig.store.affinities;
    let updates = signal_cleanup::chunk_updates(rows, chunks);
    let after = signal_cleanup::chunks_degraded(sig, chunks)->Ok_0;
    let good = spared(None, chunks);
    lemma_updates(rows, signal_cleanup::leads_to_chunk(chunks), true);
    assert forall|i: int| 0 <= i < rows.len() implies good(
        (#[trigger] rows[i]).entry_id,
        rows[i].block_id,
        rows[i].chunk_id,
    ) || exists|k: int|
        0 <= k < updates.len() && (#[trigger] updates[k]).affinity_id == rows[i].id by {
        if rows[i].chunk_id is Some && chunks.contains(rows[i].chunk_id->0) {
            let u = update_of(rows[i], true);
            assert(signal_cleanup::leads_to_chunk(chunks)(rows[i]));
            assert(updates.contains(u));
            let k = choose|k: int| 0 <= k < updates.len() && updates[k] == u;
            assert(updates[k].affinity_id == rows[i].id);
        }
    }
    assert forall|i: int, k: int|
        0 <= i < rows.len() && 0 <= k < updates.len() && (#[trigger] rows[i]).id == (
        #[trigger] updates[k]).affinity_id implies good(
        rows[i].entry_id,
        updates[k].block_id,
        updates[k].chunk_id,
    ) by {
        let x = choose|x: int|
            0 <= x < rows.len() && signal_cleanup::leads_to_chunk(chunks)(#[trigger] rows[x])
                && updates[k] == update_of(rows[x], true);
    }
    lemma_all_good(sig.store, updates, good);
    affinity_merge::law_degrade_keeps_well_formed(sig.store, updates, updates.len());
    assert forall|i: int| 0 <= i < after.results.len() implies good(
        (#[trigger] after.results[i]).target.entry_id,
        after.results[i].target.matched_block_id,
        after.results[i].target.matched_chunk_id,
    ) by {
        assert(after.results[i] == signal_cleanup::without_chunks(sig.results[i], chunks));
    }
    assert forall|i: int| 0 <= i < sig.results.len() implies (
    #[trigger] after.results[i]).target.matched_block_id
        == sig.results[i].target.matched_block_id by {
        assert(after.results[i] == signal_cleanup::without_chunks(sig.results[i], chunks));
    }
}

/// The target's entry exists and its block and chunk belong to it.
pub open spec fn target_valid(index: ContentIndex) -> TargetTest {
    |entry: Id, block: Option<Id>, chunk: Option<Id>|
        index.has_entry(entry) && reconcile::block_valid(index, entry, block)
            && reconcile::chunk_valid(index, entry, block, chunk)
}

/// Everything that memory refers to exists, and belongs where memory says.
pub open spec fn references_valid(sig: SignalsSpec, index: ContentIndex) -> bool {
    &&& forall|i: int|
        0 <= i < sig.stats.len() ==> index.has_entry((#[trigger] sig.stats[i]).entry_id)
    &&& forall|i: int|
        0 <= i < sig.receipts.len() ==> index.has_entry((#[trigger] sig.receipts[i]).entry_id)
    &&& forall|i: int|
        0 <= i < sig.results.len() ==> target_valid(index)(
            (#[trigger] sig.results[i]).target.entry_id,
            sig.results[i].target.matched_block_id,
            sig.results[i].target.matched_chunk_id,
        )
    &&& forall|i: int|
        0 <= i < sig.store.affinities.len() ==> target_valid(index)(
            (#[trigger] sig.store.affinities[i]).entry_id,
            sig.store.affinities[i].block_id,
            sig.store.affinities[i].chunk_id,
        )
    &&& affinity_merge::vectors_have_examples(sig.store)
}

/// The entry exists, and the block belongs to it.
pub open spec fn entry_and_block_valid(index: ContentIndex) -> TargetTest {
    |entry: Id, block: Option<Id>, chunk: Option<Id>|
        index.has_entry(entry) && reconcile::block_valid(index, entry, block)
}

pub(crate) proof fn lemma_distinct_filter(rows: Seq<Affinity>, keep: spec_fn(Affinity) -> bool)
    requires
        affinity_merge::distinct_ids(rows),
        affinity_merge::distinct_targets(rows),
    ensures
        affinity_merge::distinct_ids(rows.filter(keep)),
        affinity_merge::distinct_targets(rows.filter(keep)),
{
    let out = rows.filter(keep);
    assert forall|i: int, j: int| 0 <= i < j < out.len() implies (#[trigger] out[i]).id != (
    #[trigger] out[j]).id by {
        let (a, b) = signals::lemma_filter_order(rows, keep, i, j);
    }
    assert forall|i: int, j: int| 0 <= i < j < out.len() implies !affinity_merge::same_target(
        #[trigger] out[i],
        #[trigger] out[j],
    ) by {
        let (a, b) = signals::lemma_filter_order(rows, keep, i, j);
    }
}

/// After the stale blocks are gone, every example's entry and block are valid.
proof fn lemma_blocks_reconciled(store: StoreSpec, index: ContentIndex)
    requires
        store.well_formed(),
        forall|i: int|
            0 <= i < store.affinities.len() ==> index.has_entry(
                (#[trigger] store.affinities[i]).entry_id,
            ),
        ({
            let u = reconcile::stale_block_updates(store.affinities, index);
            affinity_merge::degrade(store, u, u.len()) is Ok
        }),
    ensures
        ({
            let u = reconcile::stale_block_updates(store.affinities, index);
            let rows = affinity_merge::degrade(store, u, u.len())->Ok_0.store.affinities;
            forall|i: int|
                0 <= i < rows.len() ==> entry_and_block_valid(index)(
                    (#[trigger] rows[i]).entry_id,
                    rows[i].block_id,
                    rows[i].chunk_id,
                )
        }),
{
    let rows = store.affinities;
    let updates = reconcile::stale_block_updates(rows, index);
    let good = entry_and_block_valid(index);
    let wanted = reconcile::stale_block(index);
    lemma_updates(rows, wanted, false);
    assert forall|i: int| 0 <= i < rows.len() implies good(
        (#[trigger] rows[i]).entry_id,
        rows[i].block_id,
        rows[i].chunk_id,
    ) || exists|k: int|
        0 <= k < updates.len() && (#[trigger] updates[k]).affinity_id == rows[i].id by {
        if !reconcile::block_valid(index, rows[i].entry_id, rows[i].block_id) {
            let u = update_of(rows[i], false);
            assert(wanted(rows[i]));
            assert(updates.contains(u));
            let k = choose|k: int| 0 <= k < updates.len() && updates[k] == u;
            assert(updates[k].affinity_id == rows[i].id);
        }
    }
    assert forall|i: int, k: int|
        0 <= i < rows.len() && 0 <= k < updates.len() && (#[trigger] rows[i]).id == (
        #[trigger] updates[k]).affinity_id implies good(
        rows[i].entry_id,
        updates[k].block_id,
        updates[k].chunk_id,
    ) by {
        let x = choose|x: int|
            0 <= x < rows.len() && wanted(#[trigger] rows[x]) && updates[k] == update_of(
                rows[x],
                false,
            );
    }
    lemma_all_good(store, updates, good);
}

/// After the stale chunks are gone, every example's target is valid.
proof fn lemma_chunks_reconciled(store: StoreSpec, index: ContentIndex)
    requires
        store.well_formed(),
        forall|i: int|
            0 <= i < store.affinities.len() ==> entry_and_block_valid(index)(
                (#[trigger] store.affinities[i]).entry_id,
                store.affinities[i].block_id,
                store.affinities[i].chunk_id,
            ),
        ({
            let u = reconcile::stale_chunk_updates(store.affinities, index);
            affinity_merge::degrade(store, u, u.len()) is Ok
        }),
    ensures
        ({
            let u = reconcile::stale_chunk_updates(store.affinities, index);
            let rows = affinity_merge::degrade(store, u, u.len())->Ok_0.store.affinities;
            forall|i: int|
                0 <= i < rows.len() ==> target_valid(index)(
                    (#[trigger] rows[i]).entry_id,
                    rows[i].block_id,
                    rows[i].chunk_id,
                )
        }),
{
    let rows = store.affinities;
    let updates = reconcile::stale_chunk_updates(rows, index);
    let good = target_valid(index);
    let wanted = reconcile::stale_chunk(index);
    lemma_updates(rows, wanted, true);
    assert forall|i: int| 0 <= i < rows.len() implies good(
        (#[trigger] rows[i]).entry_id,
        rows[i].block_id,
        rows[i].chunk_id,
    ) || exists|k: int|
        0 <= k < updates.len() && (#[trigger] updates[k]).affinity_id == rows[i].id by {
        assert(entry_and_block_valid(index)(
            rows[i].entry_id,
            rows[i].block_id,
            rows[i].chunk_id,
        ));
        if !reconcile::chunk_valid(
            index,
            rows[i].entry_id,
            rows[i].block_id,
            rows[i].chunk_id,
        ) {
            let u = update_of(rows[i], true);
            assert(wanted(rows[i]));
            assert(updates.contains(u));
            let k = choose|k: int| 0 <= k < updates.len() && updates[k] == u;
            assert(updates[k].affinity_id == rows[i].id);
        }
    }
    assert forall|i: int, k: int|
        0 <= i < rows.len() && 0 <= k < updates.len() && (#[trigger] rows[i]).id == (
        #[trigger] updates[k]).affinity_id implies good(
        rows[i].entry_id,
        updates[k].block_id,
        updates[k].chunk_id,
    ) by {
        let x = choose|x: int|
            0 <= x < rows.len() && wanted(#[trigger] rows[x]) && updates[k] == update_of(
                rows[x],
                true,
            );
        assert(rows[x].id == rows[i].id);
        assert(x == i);
    }
    lemma_all_good(store, updates, good);
}

/// After a reconciliation everything that memory refers to exists and belongs
/// where memory says, and the store is well-formed.
pub proof fn law_reconciled_references_are_valid(sig: SignalsSpec, index: ContentIndex)
    requires
        sig.store.well_formed(),
        reconcile::reconciled(sig, index) is Ok,
    ensures
        references_valid(reconcile::reconciled(sig, index)->Ok_0.signals, index),
        reconcile::reconciled(sig, index)->Ok_0.signals.store.well_formed(),
{
    let entries = index.entries@;
    let after = reconcile::reconciled(sig, index)->Ok_0.signals;
    let rows = signal_cleanup::rows_of(sig.store.affinities, entries, true);
    let start = StoreSpec { affinities: rows, vectors: sig.store.vectors };
    lemma_rows_of(sig.stats, entries, true);
    lemma_rows_of(sig.receipts, entries, true);
    lemma_rows_of(sig.results, entries, true);
    lemma_rows_of(sig.store.affinities, entries, true);
    lemma_distinct_filter(
        sig.store.affinities,
        |r: Affinity| entries.contains(r.entry()) == true,
    );
    let first = reconcile::stale_block_updates(rows, index);
    let d1 = affinity_merge::degrade(start, first, first.len())->Ok_0;
    lemma_blocks_reconciled(start, index);
    affinity_merge::law_degrade_keeps_well_formed(start, first, first.len());
    let second = reconcile::stale_chunk_updates(d1.store.affinities, index);
    let d2 = affinity_merge::degrade(d1.store, second, second.len())->Ok_0;
    lemma_chunks_reconciled(d1.store, index);
    affinity_merge::law_degrade_keeps_well_formed(d1.store, second, second.len());
    let keep = |v: (Id, Seq<u8>)| affinity_merge::has_example(d2.store.affinities, v.0);
    affinity_merge::lemma_filter_vectors(d2.store.vectors, keep);
    let results = signal_cleanup::rows_of(sig.results, entries, true);
    let checked = results.map_values(|r: SessionResult| reconcile::block_checked(r, index));
    assert forall|i: int| 0 <= i < after.results.len() implies target_valid(index)(
        (#[trigger] after.results[i]).target.entry_id,
        after.results[i].target.matched_block_id,
        after.results[i].target.matched_chunk_id,
    ) by {
        assert(entries.contains(results[i].entry()));
        assert(checked[i] == reconcile::block_checked(results[i], index));
        assert(after.results[i] == reconcile::chunk_checked(checked[i], index));
    }
}

proof fn lemma_filter_all<A>(s: Seq<A>, keep: spec_fn(A) -> bool)
    requires
        forall|i: int| 0 <= i < s.len() ==> keep(#[trigger] s[i]),
    ensures
        s.filter(keep) == s,
    decreases s.len(),
{
    reveal(Seq::filter);
    if s.len() > 0 {
        let head = s.drop_last();
        assert forall|i: int| 0 <= i < head.len() implies keep(#[trigger] head[i]) by {
            assert(head[i] == s[i]);
        }
        lemma_filter_all(head, keep);
        assert(keep(s[s.len() - 1]));
        assert(head.push(s.last()) =~= s);
    } else {
        assert(s.filter(keep) =~= s);
    }
}

proof fn lemma_none_picked(
    rows: Seq<Affinity>,
    wanted: spec_fn(Affinity) -> bool,
    keep_block: bool,
    n: nat,
)
    requires
        n <= rows.len(),
        forall|i: int| 0 <= i < rows.len() ==> !wanted(#[trigger] rows[i]),
    ensures
        signal_cleanup::picked(rows, wanted, keep_block, n) == Seq::<PrecisionUpdate>::empty(),
    decreases n,
{
    if n > 0 {
        lemma_none_picked(rows, wanted, keep_block, (n - 1) as nat);
        assert(!wanted(rows[n - 1]));
    }
}

proof fn lemma_no_stale_results(results: Seq<SessionResult>, index: ContentIndex, n: nat)
    requires
        n <= results.len(),
        forall|i: int|
            0 <= i < results.len() ==> target_valid(index)(
                (#[trigger] results[i]).target.entry_id,
                results[i].target.matched_block_id,
                results[i].target.matched_chunk_id,
            ),
    ensures
        reconcile::stale_blocks(results, index, n) == 0,
        reconcile::stale_chunks(results, index, n) == 0,
    decreases n,
{
    if n > 0 {
        lemma_no_stale_results(results, index, (n - 1) as nat);
        assert(target_valid(index)(
            results[n - 1].target.entry_id,
            results[n - 1].target.matched_block_id,
            results[n - 1].target.matched_chunk_id,
        ));
    }
}

/// Reconciling memory whose references are valid changes nothing, so a second
/// reconciliation with the same index finds nothing to do.
pub proof fn law_reconciling_twice_changes_nothing(sig: SignalsSpec, index: ContentIndex)
    requires
        references_valid(sig, index),
    ensures
        reconcile::reconciled(sig, index) == Ok::<Reconciled, CoreFault>(
            Reconciled {
                signals: sig,
                entry_stats_deleted: 0,
                affinities_deleted: 0,
                feedback_deleted: 0,
                session_results_deleted: 0,
                affinities_degraded: 0,
                session_results_degraded: 0,
                vectors_deleted: 0,
            },
        ),
{
    let entries = index.entries@;
    let rows = sig.store.affinities;
    lemma_filter_all(
        sig.stats,
        |r: crate::signals::EntryStats| entries.contains(r.entry()) == true,
    );
    lemma_filter_all(
        sig.receipts,
        |r: crate::signals::Receipt| entries.contains(r.entry()) == true,
    );
    assert forall|i: int| 0 <= i < sig.results.len() implies entries.contains(
        (#[trigger] sig.results[i]).entry(),
    ) by {
        assert(target_valid(index)(
            sig.results[i].target.entry_id,
            sig.results[i].target.matched_block_id,
            sig.results[i].target.matched_chunk_id,
        ));
    }
    lemma_filter_all(sig.results, |r: SessionResult| entries.contains(r.entry()) == true);
    assert forall|i: int| 0 <= i < rows.len() implies entries.contains(
        (#[trigger] rows[i]).entry(),
    ) && !reconcile::stale_block(index)(rows[i]) && !reconcile::stale_chunk(index)(rows[i]) by {
        assert(target_valid(index)(rows[i].entry_id, rows[i].block_id, rows[i].chunk_id));
    }
    lemma_filter_all(rows, |r: Affinity| entries.contains(r.entry()) == true);
    lemma_none_picked(rows, reconcile::stale_block(index), false, rows.len());
    lemma_none_picked(rows, reconcile::stale_chunk(index), true, rows.len());
    let none = Seq::<PrecisionUpdate>::empty();
    assert(ordering::in_order(none, signal_cleanup::by_example()) =~= none);
    let results = sig.results;
    lemma_no_stale_results(results, index, results.len());
    assert forall|i: int| 0 <= i < results.len() implies reconcile::block_checked(
        #[trigger] results[i],
        index,
    ) == results[i] && reconcile::chunk_checked(results[i], index) == results[i] by {
        assert(target_valid(index)(
            results[i].target.entry_id,
            results[i].target.matched_block_id,
            results[i].target.matched_chunk_id,
        ));
    }
    assert(results.map_values(|r: SessionResult| reconcile::block_checked(r, index)) =~= results);
    assert(results.map_values(|r: SessionResult| reconcile::chunk_checked(r, index)) =~= results);
    lemma_filter_all(
        sig.store.vectors,
        |v: (Id, Seq<u8>)| affinity_merge::has_example(rows, v.0),
    );
    assert(sig.store =~= StoreSpec { affinities: rows, vectors: sig.store.vectors });
}

} // verus!
