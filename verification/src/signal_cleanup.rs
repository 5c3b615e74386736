//! Keeping adaptive memory in step with content.
//!
//! When entries, blocks or chunks go away, what memory knows of them goes too:
//! rows of a deleted entry are removed, and rows that name a deleted block or
//! chunk fall back to what is left of their target. Receipts of accepted
//! feedback keep what they said.
use vstd::prelude::*;

use crate::affinity_merge::{self, AffinityStore, PrecisionUpdate, StoreSpec};
use crate::error::{CoreError, CoreFault};
use crate::ids::Id;
use crate::memory_model::SearchResultTarget;
use crate::ordering::{self, Order, Ranked};
use crate::sessions::{Signals, SignalsSpec};
use crate::signals::{self, Affinity, AffinityVector, EntryStats, Receipt, SessionResult};

verus! {

/// A row that belongs to an entry.
pub trait OfEntry: Sized {
    /// The entry.
    spec fn entry(&self) -> Id;

    fn entry_id(&self) -> (r: Id)
        ensures
            r == self.entry(),
    ;
}

impl OfEntry for EntryStats {
    open spec fn entry(&self) -> Id {
        self.entry_id
    }

    fn entry_id(&self) -> (r: Id) {
        self.entry_id
    }
}

impl OfEntry for Receipt {
    open spec fn entry(&self) -> Id {
        self.entry_id
    }

    fn entry_id(&self) -> (r: Id) {
        self.entry_id
    }
}

impl OfEntry for SessionResult {
    open spec fn entry(&self) -> Id {
        self.target.entry_id
    }

    fn entry_id(&self) -> (r: Id) {
        self.target.entry_id
    }
}

impl OfEntry for Affinity {
    open spec fn entry(&self) -> Id {
        self.entry_id
    }

    fn entry_id(&self) -> (r: Id) {
        self.entry_id
    }
}

/// The rows of the entries in `ids`, or of all others.
pub open spec fn rows_of<T: OfEntry>(rows: Seq<T>, ids: Seq<Id>, inside: bool) -> Seq<T> {
    rows.filter(|r: T| ids.contains(r.entry()) == inside)
}

/// Keep the rows of the entries in `ids`, or of all others.
pub fn keep_rows<T: OfEntry>(rows: Vec<T>, ids: &Vec<Id>, inside: bool) -> (kept: Vec<T>)
    ensures
        kept@ == rows_of(rows@, ids@, inside),
        kept.len() <= rows.len(),
{
    let ghost keep = |r: T| ids@.contains(r.entry()) == inside;
    let ghost all = rows@;
    let mut kept: Vec<T> = Vec::new();
    proof {
        assert(all.take(0).filter(keep) =~= Seq::empty()) by {
            reveal(Seq::filter);
        }
    }
    for row in it: rows
        invariant
            it.seq() == all,
            keep == (|r: T| ids@.contains(r.entry()) == inside),
            kept@ == all.take(it.index() as int).filter(keep),
            kept.len() <= it.index(),
    {
        proof {
            signals::lemma_filter_take(all, it.index() as int, keep);
        }
        if signals::contains_id(ids, row.entry_id()) == inside {
            kept.push(row);
        }
    }
    proof {
        assert(all.take(all.len() as int) =~= all);
    }
    kept
}

/// An example of one of the entries has the identifier.
pub open spec fn example_of(rows: Seq<Affinity>, id: Id, entries: Seq<Id>) -> bool {
    exists|j: int|
        0 <= j < rows.len() && (#[trigger] rows[j]).id == id && entries.contains(rows[j].entry_id)
}

/// Memory without anything that belongs to the entries.
pub open spec fn without_entries(sig: SignalsSpec, entries: Seq<Id>) -> SignalsSpec {
    SignalsSpec {
        sessions: sig.sessions,
        results: rows_of(sig.results, entries, false),
        receipts: rows_of(sig.receipts, entries, false),
        stats: rows_of(sig.stats, entries, false),
        store: StoreSpec {
            affinities: rows_of(sig.store.affinities, entries, false),
            vectors: sig.store.vectors.filter(
                |v: (Id, Seq<u8>)| !example_of(sig.store.affinities, v.0, entries),
            ),
        },
    }
}

/// Whether an example of one of the entries has the identifier.
fn is_example_of(rows: &Vec<Affinity>, id: Id, entries: &Vec<Id>) -> (r: bool)
    ensures
        r == example_of(rows@, id, entries@),
{
    let mut j: usize = 0;
    while j < rows.len()
        invariant
            j <= rows.len(),
            forall|k: int|
                0 <= k < j ==> !((#[trigger] rows@[k]).id == id && entries@.contains(
                    rows@[k].entry_id,
                )),
        decreases rows.len() - j,
    {
        if rows[j].id == id && signals::contains_id(entries, rows[j].entry_id) {
            return true;
        }
        j += 1;
    }
    false
}

/// Drop the vectors of the entries' examples.
fn drop_vectors_of(
    vectors: Vec<AffinityVector>,
    rows: &Vec<Affinity>,
    entries: &Vec<Id>,
) -> (kept: Vec<AffinityVector>)
    ensures
        signals::vectors_of(kept@) == signals::vectors_of(vectors@).filter(
            |v: (Id, Seq<u8>)| !example_of(rows@, v.0, entries@),
        ),
{
    let ghost keep = |v: (Id, Seq<u8>)| !example_of(rows@, v.0, entries@);
    let ghost held = vectors@;
    let ghost all = signals::vectors_of(held);
    let mut kept: Vec<AffinityVector> = Vec::new();
    proof {
        assert(all.take(0).filter(keep) =~= Seq::empty()) by {
            reveal(Seq::filter);
        }
        assert(signals::vectors_of(kept@) =~= Seq::empty());
    }
    for row in it: vectors
        invariant
            it.seq() == held,
            all == signals::vectors_of(held),
            keep == (|v: (Id, Seq<u8>)| !example_of(rows@, v.0, entries@)),
            signals::vectors_of(kept@) == all.take(it.index() as int).filter(keep),
    {
        proof {
            let i = it.index() as int;
            assert(all[i] == (row.affinity_id, row.embedding@));
            signals::lemma_filter_take(all, i, keep);
        }
        if !is_example_of(rows, row.affinity_id, entries) {
            let ghost before = kept@;
            let ghost pair = (row.affinity_id, row.embedding@);
            kept.push(row);
            proof {
                assert(signals::vectors_of(kept@) =~= signals::vectors_of(before).push(pair));
            }
        }
    }
    proof {
        assert(all.take(all.len() as int) =~= all);
    }
    kept
}

/// Remove everything that belongs to the entries.
pub fn delete_entries_signals(sig: Signals, entries: &Vec<Id>) -> (r: Signals)
    ensures
        r@ == without_entries(sig@, entries@),
{
    let Signals { sessions, results, receipts, stats, store } = sig;
    let AffinityStore { affinities, vectors } = store;
    let vectors = drop_vectors_of(vectors, &affinities, entries);
    let affinities = keep_rows(affinities, entries, false);
    Signals {
        sessions,
        results: keep_rows(results, entries, false),
        receipts: keep_rows(receipts, entries, false),
        stats: keep_rows(stats, entries, false),
        store: AffinityStore { affinities, vectors },
    }
}

/// Remove everything that belongs to an entry.
pub fn delete_entry_signals(sig: Signals, entry: Id) -> (r: Signals)
    ensures
        r@ == without_entries(sig@, seq![entry]),
{
    let mut entries: Vec<Id> = Vec::new();
    entries.push(entry);
    proof {
        assert(entries@ =~= seq![entry]);
    }
    delete_entries_signals(sig, &entries)
}

/// Updates go by the identifiers of their examples.
pub open spec fn by_example() -> Order<PrecisionUpdate> {
    |a: PrecisionUpdate, b: PrecisionUpdate| a.affinity_id < b.affinity_id
}

impl View for PrecisionUpdate {
    type V = PrecisionUpdate;

    open spec fn view(&self) -> PrecisionUpdate {
        *self
    }
}

impl Ranked<()> for PrecisionUpdate {
    open spec fn order(mode: ()) -> Order<PrecisionUpdate> {
        by_example()
    }

    fn is_before(&self, other: &PrecisionUpdate, mode: &()) -> (r: bool) {
        self.affinity_id < other.affinity_id
    }
}

/// Put updates in the order of their examples.
pub fn put_in_order(updates: Vec<PrecisionUpdate>) -> (r: Vec<PrecisionUpdate>)
    ensures
        r@ == ordering::in_order(updates@, by_example()),
        r.len() == updates.len(),
{
    let ghost given = updates@;
    let r = ordering::put_in_order(updates, &());
    proof {
        ordering::lemma_own_views(given);
        ordering::lemma_own_views(r@);
    }
    r
}

/// The row's example loses its block and chunk.
pub open spec fn to_entry(a: Affinity) -> PrecisionUpdate {
    PrecisionUpdate { affinity_id: a.id, block_id: None, chunk_id: None }
}

/// The row's example loses its chunk.
pub open spec fn to_block(a: Affinity) -> PrecisionUpdate {
    PrecisionUpdate { affinity_id: a.id, block_id: a.block_id, chunk_id: None }
}

/// The first `n` examples that `wanted` picks, sent to their entry or block.
pub open spec fn picked(
    rows: Seq<Affinity>,
    wanted: spec_fn(Affinity) -> bool,
    keep_block: bool,
    n: nat,
) -> Seq<PrecisionUpdate>
    decreases n,
{
    if n == 0 {
        Seq::empty()
    } else {
        let before = picked(rows, wanted, keep_block, (n - 1) as nat);
        if wanted(rows[n - 1]) {
            before.push(
                if keep_block {
                    to_block(rows[n - 1])
                } else {
                    to_entry(rows[n - 1])
                },
            )
        } else {
            before
        }
    }
}

/// The example leads to the block.
pub open spec fn leads_to_block(block: Id) -> spec_fn(Affinity) -> bool {
    |a: Affinity| a.block_id == Some(block)
}

/// The example leads to one of the chunks.
pub open spec fn leads_to_chunk(chunks: Seq<Id>) -> spec_fn(Affinity) -> bool {
    |a: Affinity| a.chunk_id is Some && chunks.contains(a.chunk_id->0)
}

/// Where the examples of a block go that is gone: to their entry, in the order
/// of their identifiers.
pub open spec fn block_updates(rows: Seq<Affinity>, block: Id) -> Seq<PrecisionUpdate> {
    ordering::in_order(
        picked(rows, leads_to_block(block), false, rows.len()),
        by_example(),
    )
}

/// Where the examples of chunks go that are gone: to their block.
pub open spec fn chunk_updates(rows: Seq<Affinity>, chunks: Seq<Id>) -> Seq<PrecisionUpdate> {
    ordering::in_order(
        picked(rows, leads_to_chunk(chunks), true, rows.len()),
        by_example(),
    )
}

/// One of the updates is for the example.
pub open spec fn is_listed(updates: Seq<PrecisionUpdate>, id: Id) -> bool {
    exists|k: int| 0 <= k < updates.len() && (#[trigger] updates[k]).affinity_id == id
}

/// The first `n` of `more` that are for other examples, after `updates`.
pub open spec fn joined(
    updates: Seq<PrecisionUpdate>,
    more: Seq<PrecisionUpdate>,
    n: nat,
) -> Seq<PrecisionUpdate>
    decreases n,
{
    if n == 0 {
        updates
    } else {
        let before = joined(updates, more, (n - 1) as nat);
        if is_listed(updates, more[n - 1].affinity_id) {
            before
        } else {
            before.push(more[n - 1])
        }
    }
}

/// Everything that a block takes with it: first the examples of the block,
/// then those of its chunks that are left.
pub open spec fn block_and_chunk_updates(
    rows: Seq<Affinity>,
    block: Id,
    chunks: Seq<Id>,
) -> Seq<PrecisionUpdate> {
    let first = block_updates(rows, block);
    let second = chunk_updates(rows, chunks);
    joined(first, second, second.len())
}

/// A search result whose block is gone.
pub open spec fn without_block(r: SessionResult, block: Id) -> SessionResult {
    if r.target.matched_block_id == Some(block) {
        SessionResult {
            target: SearchResultTarget {
                matched_block_id: None,
                matched_chunk_id: None,
                ..r.target
            },
            ..r
        }
    } else {
        r
    }
}

/// A search result whose chunk is gone.
pub open spec fn without_chunks(r: SessionResult, chunks: Seq<Id>) -> SessionResult {
    if r.target.matched_chunk_id is Some && chunks.contains(r.target.matched_chunk_id->0) {
        SessionResult {
            target: SearchResultTarget { matched_chunk_id: None, ..r.target },
            ..r
        }
    } else {
        r
    }
}

/// Memory after a block with these chunks is gone.
pub open spec fn block_degraded(sig: SignalsSpec, block: Id, chunks: Seq<Id>) -> Result<
    SignalsSpec,
    CoreFault,
> {
    let updates = block_and_chunk_updates(sig.store.affinities, block, chunks);
    match affinity_merge::degrade(sig.store, updates, updates.len()) {
        Err(e) => Err(e),
        Ok(d) => Ok(
            SignalsSpec {
                store: d.store,
                results: sig.results.map_values(
                    |r: SessionResult| without_chunks(without_block(r, block), chunks),
                ),
                ..sig
            },
        ),
    }
}

/// Memory after these chunks are gone.
pub open spec fn chunks_degraded(sig: SignalsSpec, chunks: Seq<Id>) -> Result<
    SignalsSpec,
    CoreFault,
> {
    let updates = chunk_updates(sig.store.affinities, chunks);
    match affinity_merge::degrade(sig.store, updates, updates.len()) {
        Err(e) => Err(e),
        Ok(d) => Ok(
            SignalsSpec {
                store: d.store,
                results: sig.results.map_values(|r: SessionResult| without_chunks(r, chunks)),
                ..sig
            },
        ),
    }
}

fn pick_block(rows: &Vec<Affinity>, block: Id) -> (r: Vec<PrecisionUpdate>)
    ensures
        r@ == picked(rows@, leads_to_block(block), false, rows@.len()),
{
    let mut out: Vec<PrecisionUpdate> = Vec::new();
    let mut i: usize = 0;
    while i < rows.len()
        invariant
            i <= rows.len(),
            out@ == picked(rows@, leads_to_block(block), false, i as nat),
        decreases rows.len() - i,
    {
        if signals::same_id(rows[i].block_id, Some(block)) {
            out.push(PrecisionUpdate { affinity_id: rows[i].id, block_id: None, chunk_id: None });
        }
        i += 1;
    }
    out
}

/// Whether an optional identifier is one of `ids`.
fn is_among(id: Option<Id>, ids: &Vec<Id>) -> (r: bool)
    ensures
        r == (id is Some && ids@.contains(id->0)),
{
    match id {
        Some(x) => signals::contains_id(ids, x),
        None => false,
    }
}

fn pick_chunks(rows: &Vec<Affinity>, chunks: &Vec<Id>) -> (r: Vec<PrecisionUpdate>)
    ensures
        r@ == picked(rows@, leads_to_chunk(chunks@), true, rows@.len()),
{
    let mut out: Vec<PrecisionUpdate> = Vec::new();
    let mut i: usize = 0;
    while i < rows.len()
        invariant
            i <= rows.len(),
            out@ == picked(rows@, leads_to_chunk(chunks@), true, i as nat),
        decreases rows.len() - i,
    {
        if is_among(rows[i].chunk_id, chunks) {
            out.push(
                PrecisionUpdate {
                    affinity_id: rows[i].id,
                    block_id: rows[i].block_id,
                    chunk_id: None,
                },
            );
        }
        i += 1;
    }
    out
}

fn find_listed(updates: &Vec<PrecisionUpdate>, id: Id) -> (r: bool)
    ensures
        r == is_listed(updates@, id),
{
    let mut k: usize = 0;
    while k < updates.len()
        invariant
            k <= updates.len(),
            forall|j: int| 0 <= j < k ==> (#[trigger] updates@[j]).affinity_id != id,
        decreases updates.len() - k,
    {
        if updates[k].affinity_id == id {
            return true;
        }
        k += 1;
    }
    false
}

fn join(updates: &Vec<PrecisionUpdate>, more: &Vec<PrecisionUpdate>) -> (r: Vec<PrecisionUpdate>)
    ensures
        r@ == joined(updates@, more@, more@.len()),
{
    let mut out: Vec<PrecisionUpdate> = Vec::new();
    let mut i: usize = 0;
    while i < updates.len()
        invariant
            i <= updates.len(),
            out@ == updates@.take(i as int),
        decreases updates.len() - i,
    {
        out.push(updates[i]);
        proof {
            assert(updates@.take(i + 1) =~= updates@.take(i as int).push(updates@[i as int]));
        }
        i += 1;
    }
    proof {
        assert(updates@.take(i as int) =~= updates@);
    }
    let mut k: usize = 0;
    while k < more.len()
        invariant
            k <= more.len(),
            out@ == joined(updates@, more@, k as nat),
        decreases more.len() - k,
    {
        if !find_listed(updates, more[k].affinity_id) {
            out.push(more[k]);
        }
        k += 1;
    }
    out
}

fn forget_block(r: &SessionResult, block: Id) -> (s: SessionResult)
    ensures
        s == without_block(*r, block),
{
    let mut s = *r;
    if signals::same_id(r.target.matched_block_id, Some(block)) {
        s.target.matched_block_id = None;
        s.target.matched_chunk_id = None;
    }
    s
}

fn forget_chunks(r: &SessionResult, chunks: &Vec<Id>) -> (s: SessionResult)
    ensures
        s == without_chunks(*r, chunks@),
{
    let mut s = *r;
    if is_among(r.target.matched_chunk_id, chunks) {
        s.target.matched_chunk_id = None;
    }
    s
}

/// Take a deleted block and its chunks out of memory. Receipts of accepted
/// feedback stay as they are.
pub fn degrade_block_precision(sig: Signals, block: Id, chunks: &Vec<Id>) -> (r: Result<
    Signals,
    CoreError,
>)
    ensures
        match r {
            Ok(after) => block_degraded(sig@, block, chunks@) == Ok::<SignalsSpec, CoreFault>(
                after@,
            ),
            Err(e) => block_degraded(sig@, block, chunks@) == Err::<SignalsSpec, CoreFault>(e@),
        },
{
    let ghost before = sig@;
    let Signals { sessions, results, receipts, stats, store } = sig;
    let own = put_in_order(pick_block(&store.affinities, block));
    let of_chunks = put_in_order(pick_chunks(&store.affinities, chunks));
    let updates = join(&own, &of_chunks);
    let store = match affinity_merge::degrade_affinity_precision(store, &updates) {
        Ok((store, _, _)) => store,
        Err(e) => {
            return Err(e);
        },
    };
    let ghost change = |r: SessionResult| without_chunks(without_block(r, block), chunks@);
    let mut changed: Vec<SessionResult> = Vec::new();
    let mut i: usize = 0;
    while i < results.len()
        invariant
            i <= results.len(),
            results@ == before.results,
            change == (|r: SessionResult| without_chunks(without_block(r, block), chunks@)),
            changed@ == before.results.map_values(change).take(i as int),
        decreases results.len() - i,
    {
        let r = forget_chunks(&forget_block(&results[i], block), chunks);
        changed.push(r);
        proof {
            let all = before.results.map_values(change);
            assert(all.take(i + 1) =~= all.take(i as int).push(all[i as int]));
        }
        i += 1;
    }
    proof {
        let all = before.results.map_values(change);
        assert(all.take(i as int) =~= all);
    }
    Ok(Signals { sessions, results: changed, receipts, stats, store })
}

/// Take deleted chunks out of memory. Blocks that are still there are kept, and
/// so are receipts of accepted feedback.
pub fn degrade_chunk_precision(sig: Signals, chunks: &Vec<Id>) -> (r: Result<Signals, CoreError>)
    ensures
        match r {
            Ok(after) => chunks_degraded(sig@, chunks@) == Ok::<SignalsSpec, CoreFault>(after@),
            Err(e) => chunks_degraded(sig@, chunks@) == Err::<SignalsSpec, CoreFault>(e@),
        },
{
    let ghost before = sig@;
    let Signals { sessions, results, receipts, stats, store } = sig;
    let updates = put_in_order(pick_chunks(&store.affinities, chunks));
    let store = match affinity_merge::degrade_affinity_precision(store, &updates) {
        Ok((store, _, _)) => store,
        Err(e) => {
            return Err(e);
        },
    };
    let ghost change = |r: SessionResult| without_chunks(r, chunks@);
    let mut changed: Vec<SessionResult> = Vec::new();
    let mut i: usize = 0;
    while i < results.len()
        invariant
            i <= results.len(),
            results@ == before.results,
            change == (|r: SessionResult| without_chunks(r, chunks@)),
            changed@ == before.results.map_values(change).take(i as int),
        decreases results.len() - i,
    {
        changed.push(forget_chunks(&results[i], chunks));
        proof {
            let all = before.results.map_values(change);
            assert(all.take(i + 1) =~= all.take(i as int).push(all[i as int]));
        }
        i += 1;
    }
    proof {
        let all = before.results.map_values(change);
        assert(all.take(i as int) =~= all);
    }
    Ok(Signals { sessions, results: changed, receipts, stats, store })
}

} // verus!
