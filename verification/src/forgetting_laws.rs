//! What memory keeps when content goes: nothing more is forgotten than what
//! belonged to it.
use vstd::prelude::*;

use crate::affinity_merge::{self, Degraded, PrecisionUpdate, StoreSpec};
use crate::cleanup_laws;
use crate::ids::Id;
use crate::reconcile;
use crate::sessions::SignalsSpec;
use crate::signal_cleanup::{self, OfEntry};
use crate::signals::{self, Affinity, ContentIndex, EntryStats, Receipt, SessionResult};

verus! {

/// No other example of the same query and model leads to the same entry.
pub open spec fn is_alone(rows: Seq<Affinity>, x: int) -> bool {
    &&& 0 <= x < rows.len()
    &&& forall|j: int|
        0 <= j < rows.len() && j != x ==> !((#[trigger] rows[j]).query_hash@ == rows[x].query_hash@
            && rows[j].embedding_model@ == rows[x].embedding_model@ && rows[j].entry_id
            == rows[x].entry_id)
}

/// The example, leading to that block and chunk.
pub open spec fn sent_to(a: Affinity, block: Option<Id>, chunk: Option<Id>) -> Affinity {
    Affinity { block_id: block, chunk_id: chunk, ..a }
}

/// One of the first `n` updates is for the example.
pub open spec fn is_updated(updates: Seq<PrecisionUpdate>, id: Id, n: int) -> bool {
    exists|k: int| 0 <= k < n && (#[trigger] updates[k]).affinity_id == id
}

proof fn lemma_alone_stays(d: Degraded, update: PrecisionUpdate, y: int) -> (z: int)
    requires
        d.store.well_formed(),
        is_alone(d.store.affinities, y),
        affinity_merge::degrade_one(d, update) is Ok,
    ensures
        ({
            let a = d.store.affinities[y];
            let after = affinity_merge::degrade_one(d, update)->Ok_0.store;
            &&& is_alone(after.affinities, z)
            &&& after.affinities[z] == if update.affinity_id == a.id {
                sent_to(a, update.block_id, update.chunk_id)
            } else {
                a
            }
            &&& forall|e: Seq<u8>| #[trigger]
                after.vectors.contains((a.id, e)) <==> d.store.vectors.contains((a.id, e))
        }),
{
    let rows = d.store.affinities;
    let vectors = d.store.vectors;
    let a = rows[y];
    let after = affinity_merge::degrade_one(d, update)->Ok_0.store;
    let named = |r: Affinity| r.id == update.affinity_id;
    affinity_merge::lemma_first_row(rows, named, rows.len());
    match affinity_merge::row_of_id(rows, update.affinity_id) {
        None => {
            assert(!named(rows[y]));
            y
        },
        Some(at) => {
            assert(named(rows[at]));
            if update.affinity_id == a.id {
                if at < y {
                    assert(rows[at].id != rows[y].id);
                } else if y < at {
                    assert(rows[y].id != rows[at].id);
                }
            }
            let wanted = |r: Affinity|
                r.id != update.affinity_id && r.has_target(
                    rows[at].query_hash@,
                    rows[at].embedding_model@,
                    rows[at].entry_id,
                    update.block_id,
                    update.chunk_id,
                );
            affinity_merge::lemma_first_row(rows, wanted, rows.len());
            match affinity_merge::collision_of(rows, rows[at], update) {
                None => {
                    let new = after.affinities;
                    assert forall|j: int| 0 <= j < new.len() && j != y implies !((
                    #[trigger] new[j]).query_hash@ == new[y].query_hash@ && new[j].embedding_model@
                        == new[y].embedding_model@ && new[j].entry_id == new[y].entry_id) by {
                        assert(!(rows[j].query_hash@ == rows[y].query_hash@
                            && rows[j].embedding_model@ == rows[y].embedding_model@
                            && rows[j].entry_id == rows[y].entry_id));
                    }
                    y
                },
                Some(k) => {
                    assert(wanted(rows[k]));
                    assert(k != at);
                    assert(k != y && at != y) by {
                        if k == y {
                            assert(rows[at].entry_id == rows[y].entry_id);
                        }
                        if at == y {
                            assert(rows[k].entry_id == rows[y].entry_id);
                        }
                    }
                    assert(rows[k].id != a.id && rows[at].id != a.id) by {
                        assert(k < y ==> rows[k].id != rows[y].id);
                        assert(y < k ==> rows[y].id != rows[k].id);
                        assert(at < y ==> rows[at].id != rows[y].id);
                        assert(y < at ==> rows[y].id != rows[at].id);
                    }
                    let z = if y < at {
                        y
                    } else {
                        y - 1
                    };
                    let new = after.affinities;
                    assert(new[z] == a);
                    assert forall|j: int| 0 <= j < new.len() && j != z implies !((
                    #[trigger] new[j]).query_hash@ == new[z].query_hash@ && new[j].embedding_model@
                        == new[z].embedding_model@ && new[j].entry_id == new[z].entry_id) by {
                        let i = if j < at {
                            j
                        } else {
                            j + 1
                        };
                        assert(!(rows[i].query_hash@ == rows[y].query_hash@
                            && rows[i].embedding_model@ == rows[y].embedding_model@
                            && rows[i].entry_id == rows[y].entry_id));
                        if i != k {
                            assert(new[j] == rows[i]);
                        } else {
                            assert(new[j] == affinity_merge::merged(rows[k], rows[at]));
                        }
                    }
                    let keep = |v: (Id, Seq<u8>)| v.0 != rows[k].id && v.0 != rows[at].id;
                    signals::lemma_filter_rows(vectors, keep);
                    let others = vectors.filter(keep);
                    assert forall|e: Seq<u8>| #[trigger]
                        after.vectors.contains((a.id, e)) <==> vectors.contains((a.id, e)) by {
                        let v = (a.id, e);
                        assert(others.contains(v) <==> vectors.contains(v) && keep(v));
                        if others.contains(v) {
                            let i = choose|i: int| 0 <= i < others.len() && others[i] == v;
                            assert(after.vectors[i] == v);
                        }
                        if after.vectors.contains(v) {
                            let i = choose|i: int|
                                0 <= i < after.vectors.len() && after.vectors[i] == v;
                            if i < others.len() {
                                assert(others[i] == v);
                            }
                        }
                    }
                    z
                },
            }
        },
    }
}

pub(crate) proof fn lemma_alone_kept(
    store: StoreSpec,
    updates: Seq<PrecisionUpdate>,
    n: nat,
    x: int,
    block: Option<Id>,
    chunk: Option<Id>,
) -> (y: int)
    requires
        store.well_formed(),
        n <= updates.len(),
        affinity_merge::degrade(store, updates, n) is Ok,
        is_alone(store.affinities, x),
        forall|k: int|
            0 <= k < updates.len() && (#[trigger] updates[k]).affinity_id == store.affinities[x].id
                ==> updates[k].block_id == block && updates[k].chunk_id == chunk,
    ensures
        ({
            let a = store.affinities[x];
            let after = affinity_merge::degrade(store, updates, n)->Ok_0.store;
            &&& is_alone(after.affinities, y)
            &&& after.affinities[y] == if is_updated(updates, a.id, n as int) {
                sent_to(a, block, chunk)
            } else {
                a
            }
            &&& forall|e: Seq<u8>| #[trigger]
                after.vectors.contains((a.id, e)) <==> store.vectors.contains((a.id, e))
        }),
    decreases n,
{
    if n == 0 {
        x
    } else {
        let m = (n - 1) as nat;
        let y = lemma_alone_kept(store, updates, m, x, block, chunk);
        affinity_merge::law_degrade_keeps_well_formed(store, updates, m);
        let d = affinity_merge::degrade(store, updates, m)->Ok_0;
        let a = store.affinities[x];
        let z = lemma_alone_stays(d, updates[n - 1], y);
        if is_updated(updates, a.id, m as int) {
            let k = choose|k: int| 0 <= k < m && (#[trigger] updates[k]).affinity_id == a.id;
            assert(updates[k].affinity_id == a.id && k < n);
        }
        if updates[n - 1].affinity_id == a.id {
            assert(is_updated(updates, a.id, n as int));
        }
        let after = affinity_merge::degrade(store, updates, n)->Ok_0.store;
        assert forall|e: Seq<u8>| #[trigger]
            after.vectors.contains((a.id, e)) <==> store.vectors.contains((a.id, e)) by {
            assert(d.store.vectors.contains((a.id, e)) <==> store.vectors.contains((a.id, e)));
        }
        z
    }
}

/// A block that goes takes no example with it: one that is alone with its query
/// and entry stays with its vector, for its entry where it led to the block, for
/// its block where it led to one of the chunks, and as it was otherwise. A
/// search result loses the block and the chunk, or the chunk alone, and keeps
/// the rest.
pub proof fn law_block_takes_no_example_with_it(
    sig: SignalsSpec,
    block: Id,
    chunks: Seq<Id>,
    x: int,
) -> (y: int)
    requires
        sig.store.well_formed(),
        is_alone(sig.store.affinities, x),
        signal_cleanup::block_degraded(sig, block, chunks) is Ok,
    ensures
        ({
            let a = sig.store.affinities[x];
            let after = signal_cleanup::block_degraded(sig, block, chunks)->Ok_0;
            &&& 0 <= y < after.store.affinities.len()
            &&& after.store.affinities[y] == if a.block_id == Some(block) {
                sent_to(a, None, None)
            } else if a.chunk_id is Some && chunks.contains(a.chunk_id->0) {
                sent_to(a, a.block_id, None)
            } else {
                a
            }
            &&& forall|e: Seq<u8>| #[trigger]
                after.store.vectors.contains((a.id, e)) <==> sig.store.vectors.contains((a.id, e))
            &&& after.results.len() == sig.results.len()
            &&& forall|i: int|
                0 <= i < sig.results.len() ==> is_result_left(
                    sig.results[i],
                    #[trigger] after.results[i],
                    sig.results[i].target.matched_block_id == Some(block),
                    chunks,
                )
        }),
{
    let rows = sig.store.affinities;
    let a = rows[x];
    let first = signal_cleanup::block_updates(rows, block);
    let second = signal_cleanup::chunk_updates(rows, chunks);
    let updates = signal_cleanup::block_and_chunk_updates(rows, block, chunks);
    let after = signal_cleanup::block_degraded(sig, block, chunks)->Ok_0;
    let to_block = signal_cleanup::leads_to_block(block);
    let to_chunk = signal_cleanup::leads_to_chunk(chunks);
    cleanup_laws::lemma_updates(rows, to_block, false);
    cleanup_laws::lemma_updates(rows, to_chunk, true);
    cleanup_laws::lemma_joined(first, second, second.len());
    let (b, c) = if a.block_id == Some(block) {
        (None, None)
    } else {
        (a.block_id, None)
    };
    assert forall|k: int| 0 <= k < updates.len() && (#[trigger] updates[k]).affinity_id == a.id implies
        updates[k].block_id == b && updates[k].chunk_id == c && (to_block(a) || to_chunk(a)) by {
        if k < first.len() {
            assert(updates[k] == first[k]);
            let i = choose|i: int|
                0 <= i < rows.len() && to_block(#[trigger] rows[i]) && first[k]
                    == cleanup_laws::update_of(rows[i], false);
            lemma_same_row(rows, i, x);
        } else {
            assert(second.contains(updates[k]));
            let j = choose|j: int| 0 <= j < second.len() && second[j] == updates[k];
            let i = choose|i: int|
                0 <= i < rows.len() && to_chunk(#[trigger] rows[i]) && second[j]
                    == cleanup_laws::update_of(rows[i], true);
            lemma_same_row(rows, i, x);
            if to_block(a) {
                let u = cleanup_laws::update_of(a, false);
                assert(first.contains(u));
                let f = choose|f: int| 0 <= f < first.len() && first[f] == u;
                assert(first[f].affinity_id == a.id);
                assert(signal_cleanup::is_listed(first, updates[k].affinity_id));
            }
        }
    }
    let y = lemma_alone_kept(sig.store, updates, updates.len(), x, b, c);
    if to_block(a) {
        let u = cleanup_laws::update_of(a, false);
        assert(first.contains(u));
        let f = choose|f: int| 0 <= f < first.len() && first[f] == u;
        assert(updates[f].affinity_id == a.id);
        assert(is_updated(updates, a.id, updates.len() as int));
    } else if to_chunk(a) {
        let u = cleanup_laws::update_of(a, true);
        assert(second.contains(u));
        let f = choose|f: int| 0 <= f < second.len() && second[f] == u;
        if signal_cleanup::is_listed(first, a.id) {
            let g = choose|g: int| 0 <= g < first.len() && (#[trigger] first[g]).affinity_id == a.id;
            assert(updates[g] == first[g]);
        } else {
            assert(updates.contains(second[f]));
            let g = choose|g: int| 0 <= g < updates.len() && updates[g] == second[f];
            assert(updates[g].affinity_id == a.id);
        }
        assert(is_updated(updates, a.id, updates.len() as int));
    } else if is_updated(updates, a.id, updates.len() as int) {
        let k = choose|k: int|
            0 <= k < updates.len() && (#[trigger] updates[k]).affinity_id == a.id;
        assert(updates[k].affinity_id == a.id);
    }
    y
}

pub(crate) proof fn lemma_same_row(rows: Seq<Affinity>, i: int, x: int)
    requires
        affinity_merge::distinct_ids(rows),
        0 <= i < rows.len(),
        0 <= x < rows.len(),
        rows[i].id == rows[x].id,
    ensures
        i == x,
{
    if i < x {
        assert(rows[i].id != rows[x].id);
    } else if x < i {
        assert(rows[x].id != rows[i].id);
    }
}

/// What is left of a search result: without its block and chunk where the block
/// is gone, without its chunk where only that is, and the same otherwise.
pub open spec fn is_result_left(
    old: SessionResult,
    new: SessionResult,
    block_gone: bool,
    chunks: Seq<Id>,
) -> bool {
    let chunk_gone = old.target.matched_chunk_id is Some && chunks.contains(
        old.target.matched_chunk_id->0,
    );
    &&& new.search_id == old.search_id
    &&& new.target.entry_id == old.target.entry_id
    &&& new.target.result_rank == old.target.result_rank
    &&& new.target.matched_block_id == if block_gone {
        None
    } else {
        old.target.matched_block_id
    }
    &&& new.target.matched_chunk_id == if block_gone || chunk_gone {
        None
    } else {
        old.target.matched_chunk_id
    }
}

/// Chunks that go take no example with them: one that is alone with its query
/// and entry stays with its vector, for its block where it led to one of them,
/// and as it was otherwise; and a search result loses its chunk alone.
pub proof fn law_chunks_take_no_example_with_them(sig: SignalsSpec, chunks: Seq<Id>, x: int) -> (y:
    int)
    requires
        sig.store.well_formed(),
        is_alone(sig.store.affinities, x),
        signal_cleanup::chunks_degraded(sig, chunks) is Ok,
    ensures
        ({
            let a = sig.store.affinities[x];
            let after = signal_cleanup::chunks_degraded(sig, chunks)->Ok_0;
            &&& 0 <= y < after.store.affinities.len()
            &&& after.store.affinities[y] == if a.chunk_id is Some && chunks.contains(
                a.chunk_id->0,
            ) {
                sent_to(a, a.block_id, None)
            } else {
                a
            }
            &&& forall|e: Seq<u8>| #[trigger]
                after.store.vectors.contains((a.id, e)) <==> sig.store.vectors.contains((a.id, e))
            &&& after.results.len() == sig.results.len()
            &&& forall|i: int|
                0 <= i < sig.results.len() ==> is_result_left(
                    sig.results[i],
                    #[trigger] after.results[i],
                    false,
                    chunks,
                )
        }),
{
    let rows = sig.store.affinities;
    let a = rows[x];
    let updates = signal_cleanup::chunk_updates(rows, chunks);
    let after = signal_cleanup::chunks_degraded(sig, chunks)->Ok_0;
    let to_chunk = signal_cleanup::leads_to_chunk(chunks);
    cleanup_laws::lemma_updates(rows, to_chunk, true);
    assert forall|k: int| 0 <= k < updates.len() && (#[trigger] updates[k]).affinity_id == a.id implies
        updates[k].block_id == a.block_id && updates[k].chunk_id == None::<Id> && to_chunk(a) by {
        let i = choose|i: int|
            0 <= i < rows.len() && to_chunk(#[trigger] rows[i]) && updates[k]
                == cleanup_laws::update_of(rows[i], true);
        lemma_same_row(rows, i, x);
    }
    let y = lemma_alone_kept(sig.store, updates, updates.len(), x, a.block_id, None);
    if to_chunk(a) {
        let u = cleanup_laws::update_of(a, true);
        assert(updates.contains(u));
        let f = choose|f: int| 0 <= f < updates.len() && updates[f] == u;
        assert(updates[f].affinity_id == a.id);
        assert(is_updated(updates, a.id, updates.len() as int));
    } else if is_updated(updates, a.id, updates.len() as int) {
        let k = choose|k: int|
            0 <= k < updates.len() && (#[trigger] updates[k]).affinity_id == a.id;
        assert(updates[k].affinity_id == a.id);
    }
    y
}

/// Deleting entries forgets exactly what names them, and keeps the order of the
/// rest. A vector goes where its example did.
pub proof fn law_only_deleted_entries_are_forgotten(sig: SignalsSpec, entries: Seq<Id>)
    ensures
        ({
            let after = signal_cleanup::without_entries(sig, entries);
            &&& after.sessions == sig.sessions
            &&& after.results == sig.results.filter(
                |r: SessionResult| !entries.contains(r.target.entry_id),
            )
            &&& after.receipts == sig.receipts.filter(|r: Receipt| !entries.contains(r.entry_id))
            &&& after.stats == sig.stats.filter(|r: EntryStats| !entries.contains(r.entry_id))
            &&& after.store.affinities == sig.store.affinities.filter(
                |a: Affinity| !entries.contains(a.entry_id),
            )
            &&& forall|v: (Id, Seq<u8>)| #[trigger]
                after.store.vectors.contains(v) <==> sig.store.vectors.contains(v) && forall|j: int|
                    0 <= j < sig.store.affinities.len() && (#[trigger] sig.store.affinities[j]).id
                        == v.0 ==> !entries.contains(sig.store.affinities[j].entry_id)
        }),
{
    let rows = sig.store.affinities;
    let after = signal_cleanup::without_entries(sig, entries);
    assert((|r: SessionResult| entries.contains(r.entry()) == false) =~= (|r: SessionResult|
        !entries.contains(r.target.entry_id)));
    assert((|r: Receipt| entries.contains(r.entry()) == false) =~= (|r: Receipt|
        !entries.contains(r.entry_id)));
    assert((|r: EntryStats| entries.contains(r.entry()) == false) =~= (|r: EntryStats|
        !entries.contains(r.entry_id)));
    assert((|a: Affinity| entries.contains(a.entry()) == false) =~= (|a: Affinity|
        !entries.contains(a.entry_id)));
    let keep = |v: (Id, Seq<u8>)| !signal_cleanup::example_of(rows, v.0, entries);
    signals::lemma_filter_rows(sig.store.vectors, keep);
    assert forall|v: (Id, Seq<u8>)| #[trigger] after.store.vectors.contains(v)
        <==> sig.store.vectors.contains(v) && forall|j: int|
        0 <= j < rows.len() && (#[trigger] rows[j]).id == v.0 ==> !entries.contains(
            rows[j].entry_id,
        ) by {
        assert(after.store.vectors.contains(v) <==> sig.store.vectors.contains(v) && keep(v));
    }
}

/// The block, where there is one, is one of the entry.
pub open spec fn has_block(index: ContentIndex, entry: Id, block: Option<Id>) -> bool {
    block is Some ==> index.blocks@.contains((block->0, entry))
}

/// The chunk, where there is one, stands in a block of the entry, and in that
/// block where there is one.
pub open spec fn has_chunk(
    index: ContentIndex,
    entry: Id,
    block: Option<Id>,
    chunk: Option<Id>,
) -> bool {
    chunk is Some ==> exists|b: Id| #[trigger]
        index.chunks@.contains((chunk->0, b)) && index.blocks@.contains((b, entry)) && (block is Some
            ==> block == Some(b))
}

pub(crate) proof fn lemma_has_chunk(index: ContentIndex, entry: Id, block: Option<Id>, chunk: Option<Id>)
    ensures
        reconcile::chunk_valid(index, entry, block, chunk) <==> has_chunk(
            index,
            entry,
            block,
            chunk,
        ),
{
    if chunk is Some {
        let c = chunk->0;
        if reconcile::chunk_valid(index, entry, block, chunk) {
            let b = choose|b: Id| #[trigger]
                index.owns_chunk(entry, b, c) && (block is None || block == Some(b));
            assert(index.chunks@.contains((c, b)));
        }
        if has_chunk(index, entry, block, chunk) {
            let b = choose|b: Id| #[trigger]
                index.chunks@.contains((c, b)) && index.blocks@.contains((b, entry)) && (
                block is Some ==> block == Some(b));
            assert(index.owns_chunk(entry, b, c));
        }
    }
}

/// Reconciling removes exactly the rows of entries that are gone and says how
/// many; a search result loses its block and chunk where the block is not one of
/// its entry, its chunk where only that is not, and nothing else; and a vector
/// goes only where it has no example.
pub proof fn law_reconciling_removes_what_is_gone(sig: SignalsSpec, index: ContentIndex)
    requires
        reconcile::reconciled(sig, index) is Ok,
    ensures
        ({
            let r = reconcile::reconciled(sig, index)->Ok_0;
            let after = r.signals;
            let live = sig.results.filter(
                |s: SessionResult| index.entries@.contains(s.target.entry_id),
            );
            &&& after.sessions == sig.sessions
            &&& after.stats == sig.stats.filter(
                |s: EntryStats| index.entries@.contains(s.entry_id),
            )
            &&& after.receipts == sig.receipts.filter(
                |s: Receipt| index.entries@.contains(s.entry_id),
            )
            &&& r.entry_stats_deleted + after.stats.len() == sig.stats.len()
            &&& r.feedback_deleted + after.receipts.len() == sig.receipts.len()
            &&& r.session_results_deleted + after.results.len() == sig.results.len()
            &&& after.results.len() == live.len()
            &&& forall|i: int|
                0 <= i < live.len() ==> is_result_checked(
                    live[i],
                    #[trigger] after.results[i],
                    index,
                )
            &&& forall|k: int|
                0 <= k < after.store.vectors.len() ==> is_held(
                    after.store.affinities,
                    #[trigger] after.store.vectors[k],
                )
        }),
{
    let entries = index.entries@;
    let r = reconcile::reconciled(sig, index)->Ok_0;
    let after = r.signals;
    assert((|s: SessionResult| entries.contains(s.entry()) == true) =~= (|s: SessionResult|
        index.entries@.contains(s.target.entry_id)));
    assert((|s: Receipt| entries.contains(s.entry()) == true) =~= (|s: Receipt|
        index.entries@.contains(s.entry_id)));
    assert((|s: EntryStats| entries.contains(s.entry()) == true) =~= (|s: EntryStats|
        index.entries@.contains(s.entry_id)));
    let live = sig.results.filter(|s: SessionResult| index.entries@.contains(s.target.entry_id));
    assert(live == signal_cleanup::rows_of(sig.results, entries, true));
    assert(after.stats == sig.stats.filter(|s: EntryStats| index.entries@.contains(s.entry_id)));
    assert(after.receipts == sig.receipts.filter(|s: Receipt| index.entries@.contains(s.entry_id)));
    assert(after.results.len() == live.len());
    signals::lemma_filter_rows(
        sig.results,
        |s: SessionResult| index.entries@.contains(s.target.entry_id),
    );
    signals::lemma_filter_rows(
        sig.receipts,
        |s: Receipt| index.entries@.contains(s.entry_id),
    );
    signals::lemma_filter_rows(sig.stats, |s: EntryStats| index.entries@.contains(s.entry_id));
    assert(r.entry_stats_deleted + after.stats.len() == sig.stats.len());
    assert(r.feedback_deleted + after.receipts.len() == sig.receipts.len());
    assert(r.session_results_deleted + after.results.len() == sig.results.len());
    assert forall|i: int| 0 <= i < live.len() implies is_result_checked(
        live[i],
        #[trigger] after.results[i],
        index,
    ) by {
        let b = reconcile::block_checked(live[i], index);
        assert(after.results[i] == reconcile::chunk_checked(b, index));
        lemma_has_chunk(
            index,
            b.target.entry_id,
            b.target.matched_block_id,
            b.target.matched_chunk_id,
        );
    }
    assert forall|k: int| 0 <= k < after.store.vectors.len() implies is_held(
        after.store.affinities,
        #[trigger] after.store.vectors[k],
    ) by {
        lemma_owned(sig, index, k);
        let id = after.store.vectors[k].0;
        let j = choose|j: int|
            0 <= j < after.store.affinities.len() && (#[trigger] after.store.affinities[j]).id
                == id;
        assert(after.store.affinities[j].id == id);
    }
}

/// One of the examples has the vector.
pub open spec fn is_held(rows: Seq<Affinity>, v: (Id, Seq<u8>)) -> bool {
    exists|j: int| 0 <= j < rows.len() && (#[trigger] rows[j]).id == v.0
}

proof fn lemma_owned(sig: SignalsSpec, index: ContentIndex, k: int)
    requires
        reconcile::reconciled(sig, index) matches Ok(r) && 0 <= k < r.signals.store.vectors.len(),
    ensures
        ({
            let after = reconcile::reconciled(sig, index)->Ok_0.signals.store;
            affinity_merge::has_example(after.affinities, after.vectors[k].0)
        }),
{
    let after = reconcile::reconciled(sig, index)->Ok_0.signals.store;
    let rows = signal_cleanup::rows_of(sig.store.affinities, index.entries@, true);
    let first = reconcile::stale_block_updates(rows, index);
    let d1 = affinity_merge::degrade(
        StoreSpec { affinities: rows, vectors: sig.store.vectors },
        first,
        first.len(),
    )->Ok_0;
    let second = reconcile::stale_chunk_updates(d1.store.affinities, index);
    let d2 = affinity_merge::degrade(d1.store, second, second.len())->Ok_0;
    let keep = |v: (Id, Seq<u8>)| affinity_merge::has_example(d2.store.affinities, v.0);
    signals::lemma_filter_rows(d2.store.vectors, keep);
    assert(after.vectors == d2.store.vectors.filter(keep));
    assert(after.vectors.contains(after.vectors[k]));
}

/// What a check leaves of a search result.
pub open spec fn is_result_checked(
    old: SessionResult,
    new: SessionResult,
    index: ContentIndex,
) -> bool {
    let t = old.target;
    &&& new.search_id == old.search_id
    &&& new.target.entry_id == t.entry_id
    &&& new.target.result_rank == t.result_rank
    &&& !has_block(index, t.entry_id, t.matched_block_id) ==> new.target.matched_block_id is None
        && new.target.matched_chunk_id is None
    &&& has_block(index, t.entry_id, t.matched_block_id) ==> new.target.matched_block_id
        == t.matched_block_id && new.target.matched_chunk_id == if has_chunk(
        index,
        t.entry_id,
        t.matched_block_id,
        t.matched_chunk_id,
    ) {
        t.matched_chunk_id
    } else {
        None
    }
}

/// A vector stays exactly where an example has it and was learned with the
/// active model; examples stay.
pub proof fn law_stale_vectors_go(store: StoreSpec, model: Seq<char>, v: (Id, Seq<u8>))
    requires
        affinity_merge::distinct_ids(store.affinities),
    ensures
        reconcile::without_stale(store, model).affinities == store.affinities,
        reconcile::without_stale(store, model).vectors.contains(v) <==> store.vectors.contains(v)
            && exists|j: int|
            0 <= j < store.affinities.len() && (#[trigger] store.affinities[j]).id == v.0
                && store.affinities[j].embedding_model@ == model,
{
    let rows = store.affinities;
    let keep = |v: (Id, Seq<u8>)| !reconcile::is_stale(rows, v.0, model);
    signals::lemma_filter_rows(store.vectors, keep);
    assert(reconcile::without_stale(store, model).vectors.contains(v) <==> store.vectors.contains(v)
        && keep(v));
    if exists|j: int|
        0 <= j < rows.len() && (#[trigger] rows[j]).id == v.0 && rows[j].embedding_model@ == model {
        let j = choose|j: int|
            0 <= j < rows.len() && (#[trigger] rows[j]).id == v.0 && rows[j].embedding_model@
                == model;
        assert(affinity_merge::has_example(rows, v.0));
        if reconcile::is_stale(rows, v.0, model) {
            let i = choose|i: int|
                0 <= i < rows.len() && (#[trigger] rows[i]).id == v.0 && rows[i].embedding_model@
                    != model;
            lemma_same_row(rows, i, j);
        }
    }
    if keep(v) {
        let j = choose|j: int| 0 <= j < rows.len() && (#[trigger] rows[j]).id == v.0;
        assert(rows[j].embedding_model@ == model);
    }
}

} // verus!
