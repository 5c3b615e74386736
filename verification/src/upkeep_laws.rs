//! What holds of records, files and upkeep.
use vstd::prelude::*;
use vstd::string::*;

use crate::affinity_merge::{self, StoreSpec};
use crate::attrs;
use crate::block_model::{BlockRow, CreateSpec};
use crate::blocks;
use crate::cleanup_laws;
use crate::content::{ContentSpec, Owned};
use crate::conversation_model::{Conversation, Turn, TurnRow};
use crate::conversations::{self, ConversationSpec};
use crate::entries::{self, FreshIds};
use crate::float_bits;
use crate::forgetting_laws::{self, has_block, has_chunk, is_alone, is_updated, sent_to};
use crate::fts_query;
use crate::fulltext;
use crate::ids::Id;
use crate::link_model::Link;
use crate::links;
use crate::memory_model::CreateSearchSession;
use crate::model::{EntryRowSpec, EntrySpec};
use crate::nomai_format::BlockType;
use crate::nomai_format_util;
use crate::reconcile;
use crate::sessions::{self, SignalsSpec};
use crate::signal_cleanup::{self, OfEntry};
use crate::signals::{self, Affinity, ContentIndex, Moment, Session, SessionResult};
use crate::tables::{self, HasId};
use crate::text;
use crate::time::Timestamp;

verus! {

/// A recorded search is the one that was made: its own name, both texts, the
/// vector and its length, the model, and from when to when; and its results are
/// recorded one for one under that name. Only a search that found no entry twice
/// can be recorded.
pub proof fn law_recorded_search_is_what_was_made(
    s: Session,
    id: Id,
    input: CreateSearchSession,
    now: Moment,
    expires: Moment,
    i: int,
)
    requires
        sessions::is_session_of(s, id, input, now, expires),
    ensures
        s.id == id,
        s.raw_query_text@ == input.raw_query_text@,
        s.effective_query_text@ == input.effective_query_text@,
        s.embedding_model@ == input.embedding_model@,
        float_bits::vector_bytes(input.query_embedding@) == s.query_embedding@,
        input.query_embedding@.len() <= i64::MAX ==> s.embedding_dim == input.query_embedding@.len(),
        s.created_at == now,
        s.expires_at == expires,
        sessions::recorded(id, input.results@).len() == input.results@.len(),
        0 <= i < input.results@.len() ==> sessions::recorded(id, input.results@)[i].search_id == id
            && sessions::recorded(id, input.results@)[i].target == input.results@[i],
        sessions::distinct_entries(input.results@, input.results@.len()) <==> forall|j: int, k: int|
            #![trigger input.results@[j], input.results@[k]]
            0 <= j < k < input.results@.len() ==> input.results@[j].entry_id
                != input.results@[k].entry_id,
{
}

/// Every operation that records or judges a search sweeps a hundred expired
/// sessions at most.
pub proof fn law_a_sweep_takes_a_hundred(sig: SignalsSpec, now: Seq<char>, spared: Option<Id>)
    ensures
        sessions::swept(sig, now, spared, sessions::SWEEP as nat).sessions.len() + 100
            >= sig.sessions.len(),
        sessions::swept(sig, now, spared, sessions::SWEEP as nat) == sessions::swept(
            sig,
            now,
            spared,
            100,
        ),
        sessions::swept(sig, now, spared, sessions::SWEEP as nat).receipts == sig.receipts,
        sessions::swept(sig, now, spared, sessions::SWEEP as nat).stats == sig.stats,
        sessions::swept(sig, now, spared, sessions::SWEEP as nat).store == sig.store,
{
    sessions::law_sweep_is_bounded_and_oldest_first(sig.sessions, sig.results, now, spared, 100);
}

/// The file of a stored entry says what the entry holds. A block whose type is
/// not known is written as a note.
pub proof fn law_file_says_what_the_entry_holds(e: EntrySpec, i: int)
    ensures
        ({
            let doc = nomai_format_util::stored_doc(e);
            &&& doc.format_version == 1
            &&& doc.id == e.id
            &&& doc.title == e.title
            &&& doc.tags == e.tags
            &&& e.attrs is Object ==> doc.attrs == e.attrs->Object_0
            &&& doc.source == e.source
            &&& doc.created_at == e.created_at
            &&& doc.updated_at == e.updated_at
            &&& doc.blocks.len() == e.blocks.len()
            &&& 0 <= i < e.blocks.len() ==> {
                &&& doc.blocks[i].text == e.blocks[i].text
                &&& e.blocks[i].attrs is Object ==> doc.blocks[i].attrs
                    == e.blocks[i].attrs->Object_0
                &&& BlockType::named(e.blocks[i].type_) is Some ==> doc.blocks[i].type_
                    == BlockType::named(e.blocks[i].type_)->0
                &&& BlockType::named(e.blocks[i].type_) is None ==> doc.blocks[i].type_
                    == BlockType::Note
            }
        }),
{
}

/// Blocks that are put in are put in one after another, behind those that are
/// there: each is what was given, under the name it was given, and entries and
/// links stay.
pub proof fn law_blocks_are_put_in_as_given(
    db: ContentSpec,
    inputs: Seq<CreateSpec>,
    fresh: FreshIds,
    target: usize,
    now: Timestamp,
    n: nat,
)
    requires
        n <= inputs.len(),
    ensures
        entries::inserted(db, inputs, fresh, target, now, n) matches Ok(r) ==> {
            &&& r.made.len() == n
            &&& r.db.blocks == db.blocks + r.made
            &&& r.db.entries == db.entries
            &&& r.db.links == db.links
            &&& db.chunks.is_prefix_of(r.db.chunks)
            &&& forall|i: int|
                0 <= i < n ==> {
                    let b = #[trigger] r.made[i];
                    &&& b.id == fresh.blocks@[i]
                    &&& b.entry_id == inputs[i].entry_id
                    &&& b.ordinal == inputs[i].ordinal
                    &&& b.type_ == inputs[i].type_
                    &&& b.text == inputs[i].text
                    &&& b.attrs == inputs[i].attrs
                    &&& b.created_at == now
                    &&& b.updated_at == now
                }
        },
    decreases n,
{
    if n > 0 {
        law_blocks_are_put_in_as_given(db, inputs, fresh, target, now, (n - 1) as nat);
        if let Ok(r) = entries::inserted(db, inputs, fresh, target, now, n) {
            let before = entries::inserted(db, inputs, fresh, target, now, (n - 1) as nat)->Ok_0;
            assert(r.db.blocks =~= db.blocks + r.made);
            let row = blocks::new_block(inputs[n - 1], fresh.blocks@[n - 1], now);
            let more = blocks::chunks_for(row, fresh.chunks@[n - 1]@, target, row.created_at);
            assert(r.db.chunks == before.db.chunks + more);
            assert(db.chunks =~= r.db.chunks.take(db.chunks.len() as int)) by {
                assert forall|k: int| 0 <= k < db.chunks.len() implies db.chunks[k]
                    == #[trigger] r.db.chunks[k] by {
                    assert(before.db.chunks[k] == db.chunks[k]);
                }
            }
        }
    } else {
        assert(db.blocks + Seq::<BlockRow>::empty() =~= db.blocks);
    }
}

/// An entry that is put in stands behind all others; the rest of the index
/// stays.
pub proof fn law_new_entry_stands_last(db: ContentSpec, row: EntryRowSpec)
    ensures
        entries::with_entry(db, row).entries == db.entries.push(row),
        entries::with_entry(db, row).blocks == db.blocks,
        entries::with_entry(db, row).chunks == db.chunks,
        entries::with_entry(db, row).links == db.links,
{
}

/// Events name what they are about: an entry, a block, a link or a conversation.
pub proof fn law_events_name_their_target(what: Seq<char>, id: Id)
    ensures
        entries::entry_event(what, id).type_ == what && entries::entry_event(what, id).target_type
            == "entry"@ && entries::entry_event(what, id).target_id == id,
        blocks::block_event(what, id).type_ == what && blocks::block_event(what, id).target_type
            == "block"@ && blocks::block_event(what, id).target_id == id,
        links::link_event(what, id).type_ == what && links::link_event(what, id).target_type
            == "link"@ && links::link_event(what, id).target_id == id,
        conversations::conversation_event(what, id).type_ == what
            && conversations::conversation_event(what, id).target_type == "conversation"@
            && conversations::conversation_event(what, id).target_id == id,
{
}

/// Deleting a link takes that link alone.
pub proof fn law_deleting_a_link_takes_nothing_else(db: ContentSpec, id: Id, at: int)
    requires
        0 <= at < db.links.len(),
        db.links[at].id == id,
        forall|j: int| 0 <= j < at ==> (#[trigger] db.links[j]).id != id,
    ensures
        links::without_link(db, id).links == db.links.remove(at),
        links::without_link(db, id).entries == db.entries,
        links::without_link(db, id).blocks == db.blocks,
        links::without_link(db, id).chunks == db.chunks,
{
    tables::lemma_row_at::<Link>(db.links, id, db.links.len());
    match tables::row_of::<Link>(db.links, id) {
        Some(i) => {
            if i < at {
                assert(db.links[i].id != id);
            } else if at < i {
                assert(Link::id_of(db.links[at]) != id);
            }
        },
        None => {
            assert(Link::id_of(db.links[at]) != id);
        },
    }
}

/// Deleting a conversation takes it and its turns, and nothing else.
pub proof fn law_deleting_a_conversation_takes_nothing_else(
    db: ConversationSpec,
    id: Id,
    at: int,
)
    requires
        0 <= at < db.conversations.len(),
        db.conversations[at].id == id,
        forall|j: int| 0 <= j < at ==> (#[trigger] db.conversations[j]).id != id,
    ensures
        conversations::without(db, id).conversations == db.conversations.remove(at),
        conversations::without(db, id).turns == db.turns.filter(
            |t: TurnRow| t.conversation_id != id,
        ),
{
    tables::lemma_row_at::<Conversation>(db.conversations, id, db.conversations.len());
    match tables::row_of::<Conversation>(db.conversations, id) {
        Some(i) => {
            if i < at {
                assert(db.conversations[i].id != id);
            } else if at < i {
                assert(Conversation::id_of(db.conversations[at]) != id);
            }
        },
        None => {
            assert(Conversation::id_of(db.conversations[at]) != id);
        },
    }
    let keep = |t: TurnRow| !seq![id].contains(Turn::owner_of(t));
    let other = |t: TurnRow| t.conversation_id != id;
    assert(seq![id][0] == id);
    assert(keep =~= other) by {
        assert forall|t: TurnRow| #[trigger] keep(t) == other(t) by {
            assert(Turn::owner_of(t) == t.conversation_id);
            assert(seq![id].contains(t.conversation_id) <==> t.conversation_id == id);
        }
    }
}

/// A query of fewer than three characters looks through the texts; a longer one
/// asks the index for its terms, or nothing where it has none.
pub proof fn law_short_queries_look_through_the_texts(query: Seq<char>)
    ensures
        query.len() < 3 ==> fulltext::lookup(query) is Pattern && fulltext::lookup(
            query,
        )->Pattern_0 == fulltext::like_pattern(query),
        query.len() >= 3 && fts_query::escaped(query).len() == 0 ==> fulltext::lookup(
            query,
        ) is Nothing,
        query.len() >= 3 && fts_query::escaped(query).len() > 0 ==> fulltext::lookup(query) is Terms
            && fulltext::lookup(query)->Terms_0 == fts_query::escaped(query),
{
}

/// The later of two times is one of them and not before the other; the earlier
/// one likewise.
pub proof fn law_later_and_earlier(a: Timestamp, b: Timestamp)
    ensures
        a.later(b) == a || a.later(b) == b,
        a.earlier(b) == a || a.earlier(b) == b,
        a.seconds > b.seconds || (a.seconds == b.seconds && a.nanos > b.nanos) ==> a.later(b) == a
            && a.earlier(b) == b,
        a.seconds < b.seconds || (a.seconds == b.seconds && a.nanos < b.nanos) ==> a.later(b) == b
            && a.earlier(b) == a,
{
}

proof fn lemma_stale_counts(results: Seq<SessionResult>, index: ContentIndex, n: nat)
    requires
        n <= results.len(),
    ensures
        reconcile::stale_blocks(results, index, n) == results.take(n as int).filter(
            stale_block(index),
        ).len(),
        reconcile::stale_chunks(results, index, n) == results.take(n as int).filter(
            stale_chunk(index),
        ).len(),
    decreases n,
{
    if n == 0 {
        reveal(Seq::filter);
        assert(results.take(0).filter(stale_block(index)) =~= Seq::empty());
        assert(results.take(0).filter(stale_chunk(index)) =~= Seq::empty());
    } else {
        lemma_stale_counts(results, index, (n - 1) as nat);
        signals::lemma_filter_take(results, n - 1, stale_block(index));
        signals::lemma_filter_take(results, n - 1, stale_chunk(index));
        let t = results[n - 1].target;
        forgetting_laws::lemma_has_chunk(
            index,
            t.entry_id,
            t.matched_block_id,
            t.matched_chunk_id,
        );
    }
}

/// The result's block is not one of its entry.
pub open spec fn stale_block(index: ContentIndex) -> spec_fn(SessionResult) -> bool {
    |r: SessionResult| !has_block(index, r.target.entry_id, r.target.matched_block_id)
}

/// The result's chunk is not one of its entry and block.
pub open spec fn stale_chunk(index: ContentIndex) -> spec_fn(SessionResult) -> bool {
    |r: SessionResult|
        !has_chunk(
            index,
            r.target.entry_id,
            r.target.matched_block_id,
            r.target.matched_chunk_id,
        )
}

/// The stale blocks and chunks that are counted are those of results whose block
/// is not one of their entry, and whose chunk is not one of entry and block.
pub proof fn law_stale_results_are_counted(results: Seq<SessionResult>, index: ContentIndex)
    ensures
        reconcile::stale_blocks(results, index, results.len()) == results.filter(
            stale_block(index),
        ).len(),
        reconcile::stale_chunks(results, index, results.len()) == results.filter(
            stale_chunk(index),
        ).len(),
{
    lemma_stale_counts(results, index, results.len());
    assert(results.take(results.len() as int) =~= results);
}

proof fn lemma_stage(
    store: StoreSpec,
    wanted: spec_fn(Affinity) -> bool,
    keep_block: bool,
    x: int,
) -> (y: int)
    requires
        store.well_formed(),
        is_alone(store.affinities, x),
        affinity_merge::degrade(
            store,
            crate::ordering::in_order(
                signal_cleanup::picked(
                    store.affinities,
                    wanted,
                    keep_block,
                    store.affinities.len(),
                ),
                signal_cleanup::by_example(),
            ),
            crate::ordering::in_order(
                signal_cleanup::picked(
                    store.affinities,
                    wanted,
                    keep_block,
                    store.affinities.len(),
                ),
                signal_cleanup::by_example(),
            ).len(),
        ) is Ok,
    ensures
        ({
            let updates = crate::ordering::in_order(
                signal_cleanup::picked(
                    store.affinities,
                    wanted,
                    keep_block,
                    store.affinities.len(),
                ),
                signal_cleanup::by_example(),
            );
            let a = store.affinities[x];
            let after = affinity_merge::degrade(store, updates, updates.len())->Ok_0.store;
            &&& is_alone(after.affinities, y)
            &&& after.well_formed()
            &&& after.affinities[y] == if wanted(a) {
                sent_to(
                    a,
                    if keep_block {
                        a.block_id
                    } else {
                        None
                    },
                    None,
                )
            } else {
                a
            }
        }),
{
    let rows = store.affinities;
    let a = rows[x];
    let updates = crate::ordering::in_order(
        signal_cleanup::picked(rows, wanted, keep_block, rows.len()),
        signal_cleanup::by_example(),
    );
    let block = if keep_block {
        a.block_id
    } else {
        None
    };
    cleanup_laws::lemma_updates(rows, wanted, keep_block);
    affinity_merge::law_degrade_keeps_well_formed(store, updates, updates.len());
    assert forall|k: int| 0 <= k < updates.len() && (#[trigger] updates[k]).affinity_id == a.id implies
        updates[k].block_id == block && updates[k].chunk_id == None::<Id> && wanted(a) by {
        let i = choose|i: int|
            0 <= i < rows.len() && wanted(#[trigger] rows[i]) && updates[k]
                == cleanup_laws::update_of(rows[i], keep_block);
        forgetting_laws::lemma_same_row(rows, i, x);
    }
    let y = forgetting_laws::lemma_alone_kept(store, updates, updates.len(), x, block, None);
    if wanted(a) {
        let u = cleanup_laws::update_of(a, keep_block);
        assert(updates.contains(u));
        let f = choose|f: int| 0 <= f < updates.len() && updates[f] == u;
        assert(updates[f].affinity_id == a.id);
        assert(is_updated(updates, a.id, updates.len() as int));
    } else if is_updated(updates, a.id, updates.len() as int) {
        let k = choose|k: int|
            0 <= k < updates.len() && (#[trigger] updates[k]).affinity_id == a.id;
        assert(updates[k].affinity_id == a.id);
    }
    y
}

/// What a check leaves of an example: its entry alone where its block is not one
/// of the entry, its block where only the chunk is not, and all of it otherwise.
pub open spec fn checked(a: Affinity, index: ContentIndex) -> Affinity {
    if !has_block(index, a.entry_id, a.block_id) {
        sent_to(a, None, None)
    } else if !has_chunk(index, a.entry_id, a.block_id, a.chunk_id) {
        sent_to(a, a.block_id, None)
    } else {
        a
    }
}

/// Reconciling forgets no example of an entry that exists: one that is alone
/// with its query and entry is kept for what is left of its place.
pub proof fn law_reconciling_keeps_examples(sig: SignalsSpec, index: ContentIndex, x: int)
    requires
        sig.store.well_formed(),
        is_alone(sig.store.affinities, x),
        index.entries@.contains(sig.store.affinities[x].entry_id),
        reconcile::reconciled(sig, index) is Ok,
    ensures
        reconcile::reconciled(sig, index)->Ok_0.signals.store.affinities.contains(
            checked(sig.store.affinities[x], index),
        ),
{
    let entries = index.entries@;
    let all = sig.store.affinities;
    let a = all[x];
    let live = |r: Affinity| entries.contains(r.entry()) == true;
    let rows = signal_cleanup::rows_of(all, entries, true);
    assert(rows == all.filter(live));
    cleanup_laws::lemma_distinct_filter(all, live);
    signals::lemma_filter_rows(all, live);
    assert(all.contains(a) && live(a));
    assert(rows.contains(a));
    let w = choose|w: int| 0 <= w < rows.len() && rows[w] == a;
    let start = StoreSpec { affinities: rows, vectors: sig.store.vectors };
    assert(is_alone(rows, w)) by {
        assert forall|j: int| 0 <= j < rows.len() && j != w implies !((#[trigger] rows[j]).query_hash@
            == rows[w].query_hash@ && rows[j].embedding_model@ == rows[w].embedding_model@
            && rows[j].entry_id == rows[w].entry_id) by {
            assert(rows.contains(rows[j]));
            let i = choose|i: int| 0 <= i < all.len() && all[i] == rows[j];
            if i == x {
                if j < w {
                    assert(rows[j].id != rows[w].id);
                } else {
                    assert(rows[w].id != rows[j].id);
                }
            } else {
                assert(!(all[i].query_hash@ == a.query_hash@ && all[i].embedding_model@
                    == a.embedding_model@ && all[i].entry_id == a.entry_id));
            }
        }
    }
    let first = reconcile::stale_block_updates(rows, index);
    let d1 = affinity_merge::degrade(start, first, first.len())->Ok_0;
    let y = lemma_stage(start, reconcile::stale_block(index), false, w);
    let b = d1.store.affinities[y];
    let second = reconcile::stale_chunk_updates(d1.store.affinities, index);
    let d2 = affinity_merge::degrade(d1.store, second, second.len())->Ok_0;
    let z = lemma_stage(d1.store, reconcile::stale_chunk(index), true, y);
    forgetting_laws::lemma_has_chunk(index, b.entry_id, b.block_id, b.chunk_id);
    assert(d2.store.affinities[z] == checked(a, index));
}

/// Examples lose precision in the order of their identifiers.
pub proof fn law_precision_is_lost_in_order(
    rows: Seq<Affinity>,
    wanted: spec_fn(Affinity) -> bool,
    keep_block: bool,
    i: int,
    j: int,
)
    ensures
        ({
            let out = crate::ordering::in_order(
                signal_cleanup::picked(rows, wanted, keep_block, rows.len()),
                signal_cleanup::by_example(),
            );
            0 <= i < j < out.len() ==> out[i].affinity_id <= out[j].affinity_id
        }),
{
    let before = signal_cleanup::by_example();
    let raw = signal_cleanup::picked(rows, wanted, keep_block, rows.len());
    crate::ordering::law_in_order(raw, before);
    let out = crate::ordering::in_order(raw, before);
    if 0 <= i < j < out.len() {
        assert(!before(out[j], out[i]));
    }
}

} // verus!
