//! What feedback teaches: which examples, vectors and counts it touches, and
//! what it leaves alone.
use vstd::prelude::*;
use vstd::string::*;

use crate::affinity_merge::{self, StoreSpec};
use crate::error::CoreFault;
use crate::feedback::{self, ActiveEmbedding, Outcome, Progress};
use crate::feedback_laws;
use crate::ids::{self, Id};
use crate::memory_model::FeedbackTarget;
use crate::sessions::{self, SignalsSpec};
use crate::signals::{
    self, Affinity, ContentIndex, EntryStats, Moment, Receipt, Session, SessionResult,
};

verus! {

/// The example is of that query and model and leads to the target.
pub open spec fn is_example_for(
    a: Affinity,
    hash: Seq<char>,
    model: Seq<char>,
    target: FeedbackTarget,
) -> bool {
    &&& a.query_hash@ == hash
    &&& a.embedding_model@ == model
    &&& a.entry_id == target.entry_id
    &&& a.block_id == target.block_id
    &&& a.chunk_id == target.chunk_id
}

proof fn lemma_example_at(rows: Seq<Affinity>, session: Session, hash: String, target: FeedbackTarget)
    ensures
        match feedback::example_at(rows, session, hash, target) {
            Some(i) => 0 <= i < rows.len() && is_example_for(
                rows[i],
                hash@,
                session.embedding_model@,
                target,
            ),
            None => forall|j: int|
                0 <= j < rows.len() ==> !is_example_for(
                    #[trigger] rows[j],
                    hash@,
                    session.embedding_model@,
                    target,
                ),
        },
{
    let wanted = |a: Affinity|
        a.has_target(
            hash@,
            session.embedding_model@,
            target.entry_id,
            target.block_id,
            target.chunk_id,
        );
    affinity_merge::lemma_first_row(rows, wanted, rows.len());
    if feedback::example_at(rows, session, hash, target) is None {
        assert forall|j: int| 0 <= j < rows.len() implies !is_example_for(
            #[trigger] rows[j],
            hash@,
            session.embedding_model@,
            target,
        ) by {
            assert(!wanted(rows[j]));
        }
    }
}

/// What one accepted target makes of the store: one example, at `y`, is the
/// query's for the target and has the session's text and vector; every other
/// example and vector stays.
spec fn is_step(
    before: StoreSpec,
    after: StoreSpec,
    session: Session,
    hash: Seq<char>,
    target: FeedbackTarget,
    fresh: Id,
    now: Moment,
    max: u8,
    y: int,
) -> bool {
    let a = after.affinities[y];
    let n = before.affinities.len();
    &&& 0 <= y <= n
    &&& after.affinities.len() == if y == n {
        n + 1
    } else {
        n
    }
    &&& forall|x: int|
        0 <= x < n && x != y ==> #[trigger] after.affinities[x] == before.affinities[x]
    &&& is_example_for(a, hash, session.embedding_model@, target)
    &&& a.raw_query_text == session.raw_query_text
    &&& a.effective_query_text == session.effective_query_text
    &&& a.embedding_dim == session.embedding_dim
    &&& a.last_reinforced_at == now
    &&& a.updated_at == now
    &&& y < n ==> {
        &&& is_example_for(before.affinities[y], hash, session.embedding_model@, target)
        &&& a.id == before.affinities[y].id
        &&& a.created_at == before.affinities[y].created_at
        &&& a.reinforcement_count == if before.affinities[y].reinforcement_count < max {
            before.affinities[y].reinforcement_count + 1
        } else {
            before.affinities[y].reinforcement_count as int
        }
    }
    &&& y == n ==> {
        &&& a.id == fresh
        &&& a.created_at == now
        &&& a.reinforcement_count == 1
        &&& forall|x: int|
            0 <= x < n ==> !is_example_for(
                #[trigger] before.affinities[x],
                hash,
                session.embedding_model@,
                target,
            )
    }
    &&& forall|v: (Id, Seq<u8>)| #[trigger]
        after.vectors.contains(v) <==> if v.0 == a.id {
            v.1 == session.query_embedding@
        } else {
            before.vectors.contains(v)
        }
}

proof fn lemma_step(
    before: StoreSpec,
    session: Session,
    hash: String,
    target: FeedbackTarget,
    fresh: Id,
    now: Moment,
    max: u8,
) -> (y: int)
    requires
        affinity_merge::distinct_ids(before.affinities),
        feedback_laws::is_new(before.affinities, fresh),
    ensures
        ({
            let row = feedback::reinforced_example(
                before.affinities,
                session,
                hash,
                target,
                fresh,
                now,
                max,
            );
            let after = feedback::with_example(before, session, hash, target, row);
            &&& is_step(before, after, session, hash@, target, fresh, now, max, y)
            &&& after.affinities[y].reinforcement_count == row.reinforcement_count
        }),
{
    let rows = before.affinities;
    let row = feedback::reinforced_example(rows, session, hash, target, fresh, now, max);
    let after = feedback::with_example(before, session, hash, target, row);
    lemma_example_at(rows, session, hash, target);
    let keep = |v: (Id, Seq<u8>)| v.0 != row.id;
    signals::lemma_filter_rows(before.vectors, keep);
    let kept = before.vectors.filter(keep);
    let own = (row.id, session.query_embedding@);
    assert forall|v: (Id, Seq<u8>)| #[trigger] after.vectors.contains(v) <==> if v.0 == row.id {
        v.1 == session.query_embedding@
    } else {
        before.vectors.contains(v)
    } by {
        assert(after.vectors == kept.push(own));
        if kept.contains(v) {
            let i = choose|i: int| 0 <= i < kept.len() && kept[i] == v;
            assert(after.vectors[i] == v);
        }
        if v == own {
            assert(after.vectors[kept.len() as int] == v);
        }
        if after.vectors.contains(v) {
            let i = choose|i: int| 0 <= i < after.vectors.len() && after.vectors[i] == v;
            if i < kept.len() {
                assert(kept[i] == v);
                assert(kept.contains(v));
            }
        }
    }
    match feedback::example_at(rows, session, hash, target) {
        Some(i) => i,
        None => rows.len() as int,
    }
}

/// The targets name different entries.
pub open spec fn distinct_targets(targets: Seq<FeedbackTarget>) -> bool {
    forall|i: int, j: int|
        0 <= i < j < targets.len() ==> (#[trigger] targets[i]).entry_id != (
        #[trigger] targets[j]).entry_id
}

/// Identifiers for new examples that are not in use.
pub open spec fn are_new(rows: Seq<Affinity>, fresh: Seq<(Id, Id)>) -> bool {
    &&& forall|k: int| 0 <= k < fresh.len() ==> feedback_laws::is_new(rows, #[trigger] fresh[k].1)
    &&& forall|j: int, k: int|
        0 <= j < k < fresh.len() ==> (#[trigger] fresh[j]).1 != (#[trigger] fresh[k]).1
}

/// What applying targets keeps: an example that is the query's for none of them
/// stays with its vectors, and what has changed belongs to a target's entry.
proof fn lemma_others_stay(
    p: Progress,
    session: Session,
    hash: String,
    targets: Seq<FeedbackTarget>,
    fresh: Seq<(Id, Id)>,
    now: Moment,
    max: u8,
    n: nat,
)
    requires
        n <= targets.len(),
        n <= fresh.len(),
        max >= 1,
        feedback_laws::stats_valid(p.stats, max),
        feedback_laws::store_valid(p.store, max),
        are_new(p.store.affinities, fresh),
    ensures
        ({
            let end = feedback::apply_all(p, session, hash, targets, fresh, now, max, n);
            let rows = p.store.affinities;
            &&& rows.len() <= end.store.affinities.len() <= rows.len() + n
            &&& forall|x: int|
                #![trigger end.store.affinities[x]]
                0 <= x < rows.len() && (forall|k: int|
                    0 <= k < n ==> !is_example_for(
                        rows[x],
                        hash@,
                        session.embedding_model@,
                        #[trigger] targets[k],
                    )) ==> end.store.affinities[x] == rows[x] && forall|e: Seq<u8>| #[trigger]
                    end.store.vectors.contains((rows[x].id, e)) <==> p.store.vectors.contains(
                        (rows[x].id, e),
                    )
            &&& forall|x: int|
                0 <= x < end.store.affinities.len() && (x >= rows.len() || end.store.affinities[x]
                    != rows[x]) ==> exists|k: int|
                    0 <= k < n && is_example_for(
                        #[trigger] end.store.affinities[x],
                        hash@,
                        session.embedding_model@,
                        #[trigger] targets[k],
                    )
        }),
    decreases n,
{
    if n > 0 {
        let m = (n - 1) as nat;
        lemma_others_stay(p, session, hash, targets, fresh, now, max, m);
        feedback_laws::lemma_apply_valid(p, session, hash, targets, fresh, now, max, m);
        let before = feedback::apply_all(p, session, hash, targets, fresh, now, max, m);
        let end = feedback::apply_all(p, session, hash, targets, fresh, now, max, n);
        let rows = p.store.affinities;
        let model = session.embedding_model@;
        assert(feedback_laws::is_new(before.store.affinities, fresh[n - 1].1));
        let y = lemma_step(
            before.store,
            session,
            hash,
            targets[n - 1],
            fresh[n - 1].1,
            now,
            max,
        );
        assert forall|x: int|
            #![trigger end.store.affinities[x]]
            0 <= x < rows.len() && (forall|k: int|
                0 <= k < n ==> !is_example_for(
                    rows[x],
                    hash@,
                    model,
                    #[trigger] targets[k],
                )) implies end.store.affinities[x] == rows[x] && forall|e: Seq<u8>| #[trigger]
            end.store.vectors.contains((rows[x].id, e)) <==> p.store.vectors.contains(
                (rows[x].id, e),
            ) by {
            assert(before.store.affinities[x] == rows[x]);
            assert(!is_example_for(rows[x], hash@, model, targets[n - 1]));
            assert(x != y);
            let id = end.store.affinities[y].id;
            assert(id != rows[x].id) by {
                if y == before.store.affinities.len() {
                    assert(before.store.affinities[x].id != fresh[n - 1].1);
                } else if x < y {
                    assert(before.store.affinities[x].id != before.store.affinities[y].id);
                } else {
                    assert(before.store.affinities[y].id != before.store.affinities[x].id);
                }
            }
            assert forall|e: Seq<u8>| #[trigger]
                end.store.vectors.contains((rows[x].id, e)) <==> p.store.vectors.contains(
                    (rows[x].id, e),
                ) by {
                assert(before.store.vectors.contains((rows[x].id, e)) <==> p.store.vectors.contains(
                    (rows[x].id, e),
                ));
            }
        }
        assert forall|x: int|
            0 <= x < end.store.affinities.len() && (x >= rows.len() || end.store.affinities[x]
                != rows[x]) implies exists|k: int|
            0 <= k < n && is_example_for(
                #[trigger] end.store.affinities[x],
                hash@,
                model,
                #[trigger] targets[k],
            ) by {
            if x == y {
                assert(is_example_for(end.store.affinities[x], hash@, model, targets[n - 1]));
            } else {
                assert(end.store.affinities[x] == before.store.affinities[x]);
                let k = choose|k: int|
                    0 <= k < m && is_example_for(
                        before.store.affinities[x],
                        hash@,
                        model,
                        #[trigger] targets[k],
                    );
                assert(is_example_for(end.store.affinities[x], hash@, model, targets[k]));
            }
        }
    }
}

/// `a` is what feedback makes of the query's example for a target: the session's
/// query, text, model and dimension, and the session's vector alone; reinforced
/// now, once more than the example that was there, up to `max`, or once where
/// there was none.
pub open spec fn is_taught(
    old: StoreSpec,
    new: StoreSpec,
    y: int,
    session: Session,
    hash: Seq<char>,
    target: FeedbackTarget,
    now: Moment,
    max: u8,
) -> bool {
    let a = new.affinities[y];
    &&& 0 <= y < new.affinities.len()
    &&& a.query_hash@ == hash
    &&& a.embedding_model@ == session.embedding_model@
    &&& a.entry_id == target.entry_id
    &&& a.block_id == target.block_id
    &&& a.chunk_id == target.chunk_id
    &&& a.raw_query_text@ == session.raw_query_text@
    &&& a.effective_query_text@ == session.effective_query_text@
    &&& a.embedding_dim == session.embedding_dim
    &&& a.last_reinforced_at == now
    &&& a.updated_at == now
    &&& forall|e: Seq<u8>| #[trigger]
        new.vectors.contains((a.id, e)) <==> e == session.query_embedding@
    &&& y < old.affinities.len() ==> {
        let b = old.affinities[y];
        &&& is_example_for(b, hash, session.embedding_model@, target)
        &&& a.id == b.id
        &&& a.created_at == b.created_at
        &&& a.reinforcement_count == if b.reinforcement_count < max {
            b.reinforcement_count + 1
        } else {
            b.reinforcement_count as int
        }
    }
    &&& y >= old.affinities.len() ==> {
        &&& a.created_at == now
        &&& a.reinforcement_count == 1
        &&& forall|x: int|
            0 <= x < old.affinities.len() ==> !is_example_for(
                #[trigger] old.affinities[x],
                hash,
                session.embedding_model@,
                target,
            )
    }
}

proof fn lemma_taught(
    p: Progress,
    session: Session,
    hash: String,
    targets: Seq<FeedbackTarget>,
    fresh: Seq<(Id, Id)>,
    now: Moment,
    max: u8,
    n: nat,
    k: int,
) -> (y: int)
    requires
        0 <= k < n <= targets.len(),
        n <= fresh.len(),
        max >= 1,
        distinct_targets(targets),
        feedback_laws::stats_valid(p.stats, max),
        feedback_laws::store_valid(p.store, max),
        are_new(p.store.affinities, fresh),
    ensures
        ({
            let end = feedback::apply_all(p, session, hash, targets, fresh, now, max, n);
            &&& is_taught(p.store, end.store, y, session, hash@, targets[k], now, max)
            &&& end.applied.len() == p.applied.len() + n
            &&& end.applied[p.applied.len() + k].affinity_count
                == end.store.affinities[y].reinforcement_count
            &&& end.applied[p.applied.len() + k].last_reinforced_at == now.time->0
        }),
    decreases n,
{
    let m = (n - 1) as nat;
    let model = session.embedding_model@;
    feedback_laws::lemma_apply_valid(p, session, hash, targets, fresh, now, max, m);
    feedback_laws::lemma_receipts(p, session, hash, targets, fresh, now, max, m);
    let before = feedback::apply_all(p, session, hash, targets, fresh, now, max, m);
    let end = feedback::apply_all(p, session, hash, targets, fresh, now, max, n);
    let rows = p.store.affinities;
    assert(feedback_laws::is_new(before.store.affinities, fresh[n - 1].1));
    let z = lemma_step(before.store, session, hash, targets[n - 1], fresh[n - 1].1, now, max);
    if k < n - 1 {
        let y = lemma_taught(p, session, hash, targets, fresh, now, max, m, k);
        assert(targets[k].entry_id != targets[n - 1].entry_id);
        assert(y != z);
        let a = before.store.affinities[y];
        assert(end.store.affinities[y] == a);
        assert(end.store.affinities[z].id != a.id) by {
            if z == before.store.affinities.len() {
                assert(before.store.affinities[y].id != fresh[n - 1].1);
            } else if y < z {
                assert(before.store.affinities[y].id != before.store.affinities[z].id);
            } else {
                assert(before.store.affinities[z].id != before.store.affinities[y].id);
            }
        }
        assert forall|e: Seq<u8>| #[trigger]
            end.store.vectors.contains((a.id, e)) <==> e == session.query_embedding@ by {
            assert(before.store.vectors.contains((a.id, e)) <==> e == session.query_embedding@);
        }
        assert(end.applied[p.applied.len() + k] == before.applied[p.applied.len() + k]);
        y
    } else {
        lemma_others_stay(p, session, hash, targets, fresh, now, max, m);
        let target = targets[n - 1];
        assert forall|x: int| 0 <= x < rows.len() && is_example_for(
            #[trigger] rows[x],
            hash@,
            model,
            target,
        ) implies before.store.affinities[x] == rows[x] by {
            assert forall|j: int| 0 <= j < m implies !is_example_for(
                rows[x],
                hash@,
                model,
                #[trigger] targets[j],
            ) by {
                assert(targets[j].entry_id != targets[n - 1].entry_id);
            }
        }
        if z < before.store.affinities.len() {
            let b = before.store.affinities[z];
            if z >= rows.len() || b != rows[z] {
                let j = choose|j: int|
                    0 <= j < m && is_example_for(b, hash@, model, #[trigger] targets[j]);
                assert(targets[j].entry_id != targets[n - 1].entry_id);
                assert(false);
            }
        } else {
            assert forall|x: int| 0 <= x < rows.len() implies !is_example_for(
                #[trigger] rows[x],
                hash@,
                model,
                target,
            ) by {
                if is_example_for(rows[x], hash@, model, target) {
                    assert(before.store.affinities[x] == rows[x]);
                    assert(!is_example_for(before.store.affinities[x], hash@, model, target));
                }
            }
        }
        let a = end.store.affinities[z];
        assert forall|e: Seq<u8>| #[trigger]
            end.store.vectors.contains((a.id, e)) <==> e == session.query_embedding@ by {}
        z
    }
}

/// The first session of that identifier stands at `i`.
pub open spec fn is_session(sessions: Seq<Session>, id: Id, i: int) -> bool {
    &&& 0 <= i < sessions.len()
    &&& sessions[i].id == id
    &&& forall|j: int| 0 <= j < i ==> (#[trigger] sessions[j]).id != id
}

/// The target is the one that was named. Where a chunk was named, the target's
/// block is one of the entry that has the chunk.
pub open spec fn is_named(target: FeedbackTarget, named: FeedbackTarget, index: ContentIndex) -> bool {
    &&& target.entry_id == named.entry_id
    &&& target.chunk_id == named.chunk_id
    &&& named.block_id is Some ==> target.block_id == named.block_id
    &&& named.chunk_id is None ==> target.block_id == named.block_id
    &&& named.chunk_id is Some ==> target.block_id is Some && index.chunks@.contains(
        (named.chunk_id->0, target.block_id->0),
    )
    &&& index.entries@.contains(target.entry_id)
    &&& target.block_id is Some ==> index.blocks@.contains((target.block_id->0, target.entry_id))
}

/// The search returned the entry, with that block and chunk where they are
/// named.
pub open spec fn was_returned(
    results: Seq<SessionResult>,
    search_id: Id,
    named: FeedbackTarget,
) -> bool {
    exists|i: int|
        #![trigger results[i]]
        0 <= i < results.len() && results[i].search_id == search_id && results[i].target.entry_id
            == named.entry_id && (named.block_id is Some ==> results[i].target.matched_block_id
            == named.block_id) && (named.chunk_id is Some ==> results[i].target.matched_chunk_id
            == named.chunk_id)
}

proof fn lemma_recorded(results: Seq<SessionResult>, search_id: Id, entry: Id, n: nat)
    requires
        n <= results.len(),
    ensures
        match feedback::recorded_for(results, search_id, entry, n) {
            Some(i) => 0 <= i < n && results[i].search_id == search_id
                && results[i].target.entry_id == entry,
            None => forall|i: int|
                0 <= i < n ==> !((#[trigger] results[i]).search_id == search_id
                    && results[i].target.entry_id == entry),
        },
    decreases n,
{
    if n > 0 {
        lemma_recorded(results, search_id, entry, (n - 1) as nat);
    }
}

/// A target is accepted only where the search returned it and it still exists;
/// and then it is what was named, made precise.
pub proof fn law_accepted_targets_were_returned(
    results: Seq<SessionResult>,
    index: ContentIndex,
    search_id: Id,
    named: FeedbackTarget,
)
    ensures
        feedback::validated(results, index, search_id, named) matches Ok(t) ==> is_named(
            t,
            named,
            index,
        ) && was_returned(results, search_id, named),
{
    if let Ok(t) = feedback::validated(results, index, search_id, named) {
        lemma_recorded(results, search_id, named.entry_id, results.len());
        let i = feedback::recorded_for(results, search_id, named.entry_id, results.len())->0;
        assert(results[i].search_id == search_id);
        if named.chunk_id is Some {
            index.law_chunk_parent(named.entry_id, named.chunk_id->0);
        }
    }
}

/// A target that the search returned and that still stands where it did is
/// accepted, as long as a search records an entry once and a chunk has one
/// block.
pub proof fn law_returned_targets_are_accepted(
    results: Seq<SessionResult>,
    index: ContentIndex,
    search_id: Id,
    named: FeedbackTarget,
    block: Id,
)
    requires
        was_returned(results, search_id, named),
        forall|i: int, j: int|
            #![trigger results[i], results[j]]
            0 <= i < j < results.len() ==> results[i].search_id != results[j].search_id
                || results[i].target.entry_id != results[j].target.entry_id,
        forall|i: int, j: int|
            0 <= i < j < index.chunks@.len() ==> (#[trigger] index.chunks@[i]).0 != (
            #[trigger] index.chunks@[j]).0,
        index.entries@.contains(named.entry_id),
        named.block_id is Some ==> index.blocks@.contains((named.block_id->0, named.entry_id)),
        named.chunk_id is Some ==> index.chunks@.contains((named.chunk_id->0, block))
            && index.blocks@.contains((block, named.entry_id)) && (named.block_id is Some
            ==> named.block_id == Some(block)),
    ensures
        feedback::validated(results, index, search_id, named) == Ok::<FeedbackTarget, CoreFault>(
            FeedbackTarget {
                entry_id: named.entry_id,
                block_id: if named.chunk_id is Some {
                    Some(block)
                } else {
                    named.block_id
                },
                chunk_id: named.chunk_id,
            },
        ),
{
    lemma_recorded(results, search_id, named.entry_id, results.len());
    let i = feedback::recorded_for(results, search_id, named.entry_id, results.len());
    let w = choose|i: int|
        #![trigger results[i]]
        0 <= i < results.len() && results[i].search_id == search_id && results[i].target.entry_id
            == named.entry_id && (named.block_id is Some ==> results[i].target.matched_block_id
            == named.block_id) && (named.chunk_id is Some ==> results[i].target.matched_chunk_id
            == named.chunk_id);
    assert(results[w].search_id == search_id);
    assert(i == Some(w)) by {
        if i->0 < w {
            assert(results[i->0].search_id != results[w].search_id
                || results[i->0].target.entry_id != results[w].target.entry_id);
        } else if w < i->0 {
            assert(results[w].search_id != results[i->0].search_id
                || results[w].target.entry_id != results[i->0].target.entry_id);
        }
    }
    if named.chunk_id is Some {
        let chunk = named.chunk_id->0;
        index.law_chunk_parent(named.entry_id, chunk);
        assert(index.owns_chunk(named.entry_id, block, chunk));
        let parent = index.chunk_parent(named.entry_id, chunk);
        assert(parent is Some);
        let a = choose|a: int|
            0 <= a < index.chunks@.len() && index.chunks@[a] == (chunk, parent->0);
        let b = choose|b: int| 0 <= b < index.chunks@.len() && index.chunks@[b] == (chunk, block);
        if a < b {
            assert(index.chunks@[a].0 != index.chunks@[b].0);
        } else if b < a {
            assert(index.chunks@[b].0 != index.chunks@[a].0);
        }
    }
}

proof fn lemma_accepted_named(
    sig: SignalsSpec,
    index: ContentIndex,
    search_id: Id,
    targets: Seq<FeedbackTarget>,
    n: nat,
    k: int,
) -> (j: int)
    requires
        n <= targets.len(),
        feedback::sorted(sig, index, search_id, targets, n) matches Ok(s) && 0 <= k
            < s.accepted.len(),
    ensures
        ({
            let s = feedback::sorted(sig, index, search_id, targets, n)->Ok_0;
            &&& 0 <= j < n
            &&& is_named(s.accepted[k], targets[j], index)
            &&& was_returned(sig.results, search_id, targets[j])
        }),
    decreases n,
{
    if n == 0 {
        0
    } else {
        let m = (n - 1) as nat;
        let before = feedback::sorted(sig, index, search_id, targets, m)->Ok_0;
        let s = feedback::sorted(sig, index, search_id, targets, n)->Ok_0;
        if k < before.accepted.len() {
            assert(s.accepted[k] == before.accepted[k]);
            lemma_accepted_named(sig, index, search_id, targets, m, k)
        } else {
            law_accepted_targets_were_returned(sig.results, index, search_id, targets[n - 1]);
            n - 1
        }
    }
}

/// What feedback on a valid memory starts from.
spec fn progress_of(sig: SignalsSpec) -> Progress {
    Progress {
        receipts: sig.receipts,
        stats: sig.stats,
        store: sig.store,
        applied: Seq::empty(),
    }
}

proof fn lemma_feedback_runs(
    sig: SignalsSpec,
    index: ContentIndex,
    search_id: Id,
    targets: Seq<FeedbackTarget>,
    active: Option<ActiveEmbedding>,
    now: Moment,
    max: u8,
    hash: String,
    fresh: Seq<(Id, Id)>,
    out: Outcome,
    at: int,
) -> (accepted: Seq<FeedbackTarget>)
    requires
        is_session(sig.sessions, search_id, at),
        feedback::feedback(sig, index, search_id, targets, active, now, max, hash, fresh) == Ok::<
            Outcome,
            CoreFault,
        >(out),
    ensures
        ({
            let start = sessions::swept(sig, now.text@, Some(search_id), sessions::SWEEP as nat);
            &&& feedback::sorted(start, index, search_id, targets, targets.len()) matches Ok(s)
                && s.accepted == accepted && s.already == out.already_applied
            &&& start.store == sig.store
            &&& start.stats == sig.stats
            &&& start.receipts == sig.receipts
        }),
        ({
            let end = feedback::apply_all(
                progress_of(sig),
                sig.sessions[at],
                hash,
                accepted,
                fresh,
                now,
                max,
                accepted.len(),
            );
            &&& out.signals.store == end.store
            &&& out.signals.stats == end.stats
            &&& out.signals.receipts == end.receipts
            &&& out.applied == end.applied
        }),
        distinct_targets(accepted),
        accepted.len() <= targets.len(),
{
    let start = sessions::swept(sig, now.text@, Some(search_id), sessions::SWEEP as nat);
    feedback_laws::lemma_spared_session(
        sig.sessions,
        sig.results,
        now.text@,
        search_id,
        sessions::SWEEP as nat,
    );
    feedback_laws::lemma_session_at(sig.sessions, search_id, sig.sessions.len());
    let i = feedback::session_at(sig.sessions, search_id, sig.sessions.len());
    assert(i == Some(at)) by {
        if i is None {
            assert(sig.sessions[at].id != search_id);
        } else if i->0 < at {
            assert(sig.sessions[i->0].id != search_id);
        } else if at < i->0 {
            assert(sig.sessions[at].id != search_id);
        }
    }
    feedback_laws::lemma_session_at(start.sessions, search_id, start.sessions.len());
    feedback_laws::lemma_sorted(start, index, search_id, targets, targets.len());
    feedback_laws::lemma_accepted_distinct(start, index, search_id, targets, targets.len());
    feedback::sorted(start, index, search_id, targets, targets.len())->Ok_0.accepted
}

/// For each entry that feedback applies to there is afterwards an example of
/// the session's own query: under its hash, with its texts, and with its vector
/// alone. It leads to what was named, and it counts one more than before, or
/// one where the query had no such example.
pub proof fn law_feedback_teaches_the_query(
    sig: SignalsSpec,
    index: ContentIndex,
    search_id: Id,
    targets: Seq<FeedbackTarget>,
    active: Option<ActiveEmbedding>,
    now: Moment,
    max: u8,
    hash: String,
    fresh: Seq<(Id, Id)>,
    out: Outcome,
    at: int,
    k: int,
) -> (r: (int, int, FeedbackTarget))
    requires
        is_session(sig.sessions, search_id, at),
        feedback_laws::memory_valid(sig, max),
        max >= 1,
        fresh.len() >= targets.len(),
        are_new(sig.store.affinities, fresh),
        feedback::feedback(sig, index, search_id, targets, active, now, max, hash, fresh) == Ok::<
            Outcome,
            CoreFault,
        >(out),
        0 <= k < out.applied.len(),
    ensures
        0 <= r.0 < targets.len(),
        is_named(r.2, targets[r.0], index),
        out.applied[k].entry_id == targets[r.0].entry_id,
        is_taught(
            sig.store,
            out.signals.store,
            r.1,
            sig.sessions[at],
            hash@,
            r.2,
            now,
            max,
        ),
        out.applied[k].affinity_count == out.signals.store.affinities[r.1].reinforcement_count,
        out.applied[k].last_reinforced_at == now.time->0,
{
    let accepted = lemma_feedback_runs(
        sig,
        index,
        search_id,
        targets,
        active,
        now,
        max,
        hash,
        fresh,
        out,
        at,
    );
    let start = sessions::swept(sig, now.text@, Some(search_id), sessions::SWEEP as nat);
    let p = progress_of(sig);
    let session = sig.sessions[at];
    feedback_laws::lemma_receipts(p, session, hash, accepted, fresh, now, max, accepted.len());
    assert(out.applied.len() == accepted.len());
    assert(out.applied[p.applied.len() + k].entry_id == accepted[k].entry_id);
    let y = lemma_taught(p, session, hash, accepted, fresh, now, max, accepted.len(), k);
    let j = lemma_accepted_named(start, index, search_id, targets, targets.len(), k);
    assert(out.applied[p.applied.len() + k] == out.applied[k]);
    (j, y, accepted[k])
}

/// Feedback leaves alone what it is not about: an example of another query or
/// model, or for an entry that it does not apply to, stays as it was, and so do
/// its vectors; and every example that is new or changed is one of the
/// session's query.
pub proof fn law_feedback_spares_other_examples(
    sig: SignalsSpec,
    index: ContentIndex,
    search_id: Id,
    targets: Seq<FeedbackTarget>,
    active: Option<ActiveEmbedding>,
    now: Moment,
    max: u8,
    hash: String,
    fresh: Seq<(Id, Id)>,
    out: Outcome,
    at: int,
    x: int,
)
    requires
        is_session(sig.sessions, search_id, at),
        feedback_laws::memory_valid(sig, max),
        max >= 1,
        fresh.len() >= targets.len(),
        are_new(sig.store.affinities, fresh),
        feedback::feedback(sig, index, search_id, targets, active, now, max, hash, fresh) == Ok::<
            Outcome,
            CoreFault,
        >(out),
        0 <= x < sig.store.affinities.len(),
        ({
            let a = sig.store.affinities[x];
            a.query_hash@ != hash@ || a.embedding_model@ != sig.sessions[at].embedding_model@ || (
            forall|k: int|
                0 <= k < out.applied.len() ==> (#[trigger] out.applied[k]).entry_id != a.entry_id)
        }),
    ensures
        out.signals.store.affinities[x] == sig.store.affinities[x],
        forall|e: Seq<u8>| #[trigger]
            out.signals.store.vectors.contains((sig.store.affinities[x].id, e))
                <==> sig.store.vectors.contains((sig.store.affinities[x].id, e)),
        sig.store.affinities.len() <= out.signals.store.affinities.len()
            <= sig.store.affinities.len() + out.applied.len(),
        forall|y: int|
            0 <= y < out.signals.store.affinities.len() && (y >= sig.store.affinities.len()
                || out.signals.store.affinities[y] != sig.store.affinities[y]) ==> (
            #[trigger] out.signals.store.affinities[y]).query_hash@ == hash@
                && out.signals.store.affinities[y].embedding_model@
                == sig.sessions[at].embedding_model@,
{
    let accepted = lemma_feedback_runs(
        sig,
        index,
        search_id,
        targets,
        active,
        now,
        max,
        hash,
        fresh,
        out,
        at,
    );
    let p = progress_of(sig);
    let session = sig.sessions[at];
    let n = accepted.len();
    feedback_laws::lemma_receipts(p, session, hash, accepted, fresh, now, max, n);
    lemma_others_stay(p, session, hash, accepted, fresh, now, max, n);
    let a = sig.store.affinities[x];
    assert forall|k: int| 0 <= k < n implies !is_example_for(
        a,
        hash@,
        session.embedding_model@,
        #[trigger] accepted[k],
    ) by {
        assert(out.applied[p.applied.len() + k].entry_id == accepted[k].entry_id);
        assert(out.applied[k].entry_id == accepted[k].entry_id);
    }
    assert(out.signals.store.affinities[x] == a);
}

proof fn lemma_stats_applied(
    p: Progress,
    session: Session,
    hash: String,
    targets: Seq<FeedbackTarget>,
    fresh: Seq<(Id, Id)>,
    now: Moment,
    max: u8,
    n: nat,
    entry: Id,
)
    requires
        n <= targets.len(),
        n <= fresh.len(),
        distinct_targets(targets),
    ensures
        ({
            let end = feedback::apply_all(p, session, hash, targets, fresh, now, max, n);
            let before = feedback::stats_at(p.stats, entry, p.stats.len());
            let after = feedback::stats_at(end.stats, entry, end.stats.len());
            &&& p.stats.len() <= end.stats.len()
            &&& (forall|k: int| 0 <= k < n ==> (#[trigger] targets[k]).entry_id != entry) ==> {
                &&& before is None ==> after is None
                &&& before is Some ==> after == before && end.stats[after->0] == p.stats[before->0]
            }
            &&& forall|k: int|
                0 <= k < n && (#[trigger] targets[k]).entry_id == entry ==> {
                    &&& after is Some
                    &&& is_reinforced(
                        match before {
                            Some(i) => Some(p.stats[i]),
                            None => None,
                        },
                        end.stats[after->0],
                        entry,
                        now,
                        max,
                    )
                    &&& end.applied.len() == p.applied.len() + n
                    &&& end.applied[p.applied.len() + k].reinforcement_count
                        == end.stats[after->0].reinforcement_count
                }
        }),
    decreases n,
{
    if n > 0 {
        let m = (n - 1) as nat;
        lemma_stats_applied(p, session, hash, targets, fresh, now, max, m, entry);
        feedback_laws::lemma_receipts(p, session, hash, targets, fresh, now, max, m);
        let mid = feedback::apply_all(p, session, hash, targets, fresh, now, max, m);
        let end = feedback::apply_all(p, session, hash, targets, fresh, now, max, n);
        let last = targets[n - 1].entry_id;
        feedback_laws::lemma_stats_at(mid.stats, last, mid.stats.len());
        let row = feedback::reinforced_stats(mid.stats, last, now, max);
        lemma_stats_placed(mid.stats, row, entry);
        if last == entry {
            assert forall|k: int| 0 <= k < m implies (#[trigger] targets[k]).entry_id != entry by {
                assert(targets[k].entry_id != targets[n - 1].entry_id);
            }
        }
        assert forall|k: int| 0 <= k < n && (#[trigger] targets[k]).entry_id == entry implies {
            let before = feedback::stats_at(p.stats, entry, p.stats.len());
            let after = feedback::stats_at(end.stats, entry, end.stats.len());
            &&& after is Some
            &&& is_reinforced(
                match before {
                    Some(i) => Some(p.stats[i]),
                    None => None,
                },
                end.stats[after->0],
                entry,
                now,
                max,
            )
            &&& end.applied.len() == p.applied.len() + n
            &&& end.applied[p.applied.len() + k].reinforcement_count
                == end.stats[after->0].reinforcement_count
        } by {
            if k < m {
                assert(targets[k].entry_id != targets[n - 1].entry_id);
                assert(end.applied[p.applied.len() + k] == mid.applied[p.applied.len() + k]);
            }
        }
    }
}

/// The row after one more reinforcement: reinforced now, one more than before
/// up to `max`, or once where there was no row.
pub open spec fn is_reinforced(
    old: Option<EntryStats>,
    new: EntryStats,
    entry: Id,
    now: Moment,
    max: u8,
) -> bool {
    &&& new.entry_id == entry
    &&& new.last_reinforced_at == now
    &&& new.updated_at == now
    &&& old is None ==> new.reinforcement_count == 1
    &&& old matches Some(row) ==> new.reinforcement_count == if row.reinforcement_count < max {
        row.reinforcement_count + 1
    } else {
        row.reinforcement_count as int
    }
}

proof fn lemma_stats_prefix(a: Seq<EntryStats>, b: Seq<EntryStats>, entry: Id, n: nat)
    requires
        n <= a.len(),
        n <= b.len(),
        forall|i: int|
            0 <= i < n ==> (#[trigger] a[i]).entry_id == (#[trigger] b[i]).entry_id,
    ensures
        feedback::stats_at(a, entry, n) == feedback::stats_at(b, entry, n),
    decreases n,
{
    if n > 0 {
        lemma_stats_prefix(a, b, entry, (n - 1) as nat);
        assert(a[n - 1].entry_id == b[n - 1].entry_id);
    }
}

proof fn lemma_stats_placed(stats: Seq<EntryStats>, row: EntryStats, entry: Id)
    ensures
        ({
            let out = feedback::with_stats(stats, row);
            let before = feedback::stats_at(stats, entry, stats.len());
            let after = feedback::stats_at(out, entry, out.len());
            &&& stats.len() <= out.len()
            &&& entry != row.entry_id ==> {
                &&& after == before
                &&& before is Some ==> out[before->0] == stats[before->0]
            }
            &&& entry == row.entry_id ==> after is Some && out[after->0] == row
        }),
{
    let out = feedback::with_stats(stats, row);
    feedback_laws::lemma_stats_at(stats, row.entry_id, stats.len());
    feedback_laws::lemma_stats_at(stats, entry, stats.len());
    match feedback::stats_at(stats, row.entry_id, stats.len()) {
        Some(i) => {
            assert forall|j: int| 0 <= j < stats.len() implies (#[trigger] stats[j]).entry_id == (
            #[trigger] out[j]).entry_id by {}
            lemma_stats_prefix(stats, out, entry, stats.len());
        },
        None => {
            assert forall|j: int| 0 <= j < stats.len() implies (#[trigger] stats[j]).entry_id == (
            #[trigger] out[j]).entry_id by {}
            lemma_stats_prefix(stats, out, entry, stats.len());
        },
    }
}

/// Feedback reinforces each entry that it applies to once, and answers with the
/// count; the statistics of other entries stay.
pub proof fn law_feedback_reinforces_its_entries(
    sig: SignalsSpec,
    index: ContentIndex,
    search_id: Id,
    targets: Seq<FeedbackTarget>,
    active: Option<ActiveEmbedding>,
    now: Moment,
    max: u8,
    hash: String,
    fresh: Seq<(Id, Id)>,
    out: Outcome,
    at: int,
    k: int,
    i: int,
    j: int,
)
    requires
        is_session(sig.sessions, search_id, at),
        feedback_laws::memory_valid(sig, max),
        max >= 1,
        fresh.len() >= targets.len(),
        are_new(sig.store.affinities, fresh),
        feedback::feedback(sig, index, search_id, targets, active, now, max, hash, fresh) == Ok::<
            Outcome,
            CoreFault,
        >(out),
        0 <= k < out.applied.len(),
        0 <= i < sig.stats.len(),
        0 <= j < out.signals.stats.len(),
    ensures
        (forall|m: int|
            0 <= m < out.applied.len() ==> (#[trigger] out.applied[m]).entry_id
                != sig.stats[i].entry_id) ==> out.signals.stats.contains(sig.stats[i]),
        out.signals.stats[j].entry_id == out.applied[k].entry_id
            ==> out.applied[k].reinforcement_count == out.signals.stats[j].reinforcement_count,
        out.signals.stats[j].entry_id == out.applied[k].entry_id && sig.stats[i].entry_id
            == out.applied[k].entry_id ==> is_reinforced(
            Some(sig.stats[i]),
            out.signals.stats[j],
            out.applied[k].entry_id,
            now,
            max,
        ),
        out.signals.stats[j].entry_id == out.applied[k].entry_id && (forall|m: int|
            0 <= m < sig.stats.len() ==> (#[trigger] sig.stats[m]).entry_id
                != out.applied[k].entry_id) ==> is_reinforced(
            None,
            out.signals.stats[j],
            out.applied[k].entry_id,
            now,
            max,
        ),
        exists|m: int|
            0 <= m < out.signals.stats.len() && (#[trigger] out.signals.stats[m]).entry_id
                == out.applied[k].entry_id,
{
    let accepted = lemma_feedback_runs(
        sig,
        index,
        search_id,
        targets,
        active,
        now,
        max,
        hash,
        fresh,
        out,
        at,
    );
    let p = progress_of(sig);
    let session = sig.sessions[at];
    let n = accepted.len();
    feedback_laws::lemma_receipts(p, session, hash, accepted, fresh, now, max, n);
    feedback_laws::lemma_apply_valid(p, session, hash, accepted, fresh, now, max, n);
    assert forall|m: int| 0 <= m < n implies (#[trigger] out.applied[m]).entry_id
        == accepted[m].entry_id by {
        assert(out.applied[p.applied.len() + m].entry_id == accepted[m].entry_id);
    }
    assert(out.applied[p.applied.len() + k] == out.applied[k]);
    let stats = out.signals.stats;
    let entry = accepted[k].entry_id;
    lemma_stats_applied(p, session, hash, accepted, fresh, now, max, n, entry);
    feedback_laws::lemma_stats_at(sig.stats, entry, sig.stats.len());
    feedback_laws::lemma_stats_at(stats, entry, stats.len());
    lemma_one_row(stats, j, max);
    lemma_one_row(sig.stats, i, max);
    if forall|m: int|
        0 <= m < out.applied.len() ==> (#[trigger] out.applied[m]).entry_id
            != sig.stats[i].entry_id {
        let other = sig.stats[i].entry_id;
        assert forall|m: int| 0 <= m < n implies (#[trigger] accepted[m]).entry_id != other by {
            assert(out.applied[m].entry_id == accepted[m].entry_id);
        }
        lemma_stats_applied(p, session, hash, accepted, fresh, now, max, n, other);
        feedback_laws::lemma_stats_at(sig.stats, other, sig.stats.len());
        feedback_laws::lemma_stats_at(stats, other, stats.len());
        let z = feedback::stats_at(stats, other, stats.len())->0;
        assert(stats[z] == sig.stats[i]);
    }
}

proof fn lemma_one_row(stats: Seq<EntryStats>, i: int, max: u8)
    requires
        feedback_laws::stats_valid(stats, max),
        0 <= i < stats.len(),
    ensures
        feedback::stats_at(stats, stats[i].entry_id, stats.len()) == Some(i),
{
    let entry = stats[i].entry_id;
    feedback_laws::lemma_stats_at(stats, entry, stats.len());
    let z = feedback::stats_at(stats, entry, stats.len());
    if z is None {
        assert(stats[i].entry_id != entry);
    } else if z->0 < i {
        assert(stats[z->0].entry_id != stats[i].entry_id);
    } else if i < z->0 {
        assert(stats[i].entry_id != stats[z->0].entry_id);
    }
}

/// The query that feedback learns is the one that the session made effective.
pub proof fn law_feedback_learns_the_effective_query(
    sig: SignalsSpec,
    search_id: Id,
    now: Moment,
    at: int,
)
    requires
        is_session(sig.sessions, search_id, at),
    ensures
        feedback::query_of(sig, search_id, now) == sig.sessions[at].effective_query_text@,
{
    feedback_laws::lemma_spared_session(
        sig.sessions,
        sig.results,
        now.text@,
        search_id,
        sessions::SWEEP as nat,
    );
    feedback_laws::lemma_session_at(sig.sessions, search_id, sig.sessions.len());
    let i = feedback::session_at(sig.sessions, search_id, sig.sessions.len());
    if i is None {
        assert(sig.sessions[at].id != search_id);
    } else if i->0 < at {
        assert(sig.sessions[i->0].id != search_id);
    } else if at < i->0 {
        assert(sig.sessions[at].id != search_id);
    }
}

proof fn lemma_repeated(targets: Seq<FeedbackTarget>, n: nat)
    requires
        n <= targets.len(),
    ensures
        feedback::repeated(targets, n) is None <==> distinct_targets(targets.take(n as int)),
    decreases n,
{
    if n > 0 {
        let m = (n - 1) as nat;
        lemma_repeated(targets, m);
        let (a, b) = (targets.take(m as int), targets.take(n as int));
        if distinct_targets(b) {
            assert forall|i: int, j: int| 0 <= i < j < a.len() implies (#[trigger] a[i]).entry_id
                != (#[trigger] a[j]).entry_id by {
                assert(b[i].entry_id != b[j].entry_id);
            }
            if exists|j: int|
                0 <= j < n - 1 && (#[trigger] targets[j]).entry_id == targets[n - 1].entry_id {
                let j = choose|j: int|
                    0 <= j < n - 1 && (#[trigger] targets[j]).entry_id == targets[n - 1].entry_id;
                assert(b[j].entry_id != b[n - 1].entry_id);
            }
        }
        if feedback::repeated(targets, n) is None {
            assert forall|i: int, j: int| 0 <= i < j < b.len() implies (#[trigger] b[i]).entry_id
                != (#[trigger] b[j]).entry_id by {
                if j < m {
                    assert(a[i].entry_id != a[j].entry_id);
                } else {
                    assert(targets[i].entry_id != targets[n - 1].entry_id);
                }
            }
        }
    }
}

/// The session is made with the model and dimension that a caller insists on,
/// where one does.
pub open spec fn fits_embedding(session: Session, active: Option<ActiveEmbedding>) -> bool {
    active is Some ==> session.embedding_model@ == active->0.model@ && session.embedding_dim
        == active->0.dim
}

/// The session has a readable end, and it lies after `now`.
pub open spec fn is_running(session: Session, now: Moment) -> bool {
    session.expires_at.time is Some && {
        let (t, end) = (now.time->0, session.expires_at.time->0);
        t.seconds < end.seconds || (t.seconds == end.seconds && t.nanos < end.nanos)
    }
}

/// Feedback is accepted only for a session that exists, is running and fits the
/// active model, and for targets that are some and name different entries. What
/// is refused is refused for the reason that it has.
pub proof fn law_feedback_needs_a_running_session(
    sig: SignalsSpec,
    index: ContentIndex,
    search_id: Id,
    targets: Seq<FeedbackTarget>,
    active: Option<ActiveEmbedding>,
    now: Moment,
    max: u8,
    hash: String,
    fresh: Seq<(Id, Id)>,
    at: int,
)
    ensures
        ({
            let r = feedback::feedback(
                sig,
                index,
                search_id,
                targets,
                active,
                now,
                max,
                hash,
                fresh,
            );
            let session = sig.sessions[at];
            &&& (forall|j: int|
                0 <= j < sig.sessions.len() ==> (#[trigger] sig.sessions[j]).id != search_id)
                ==> r == Err::<Outcome, CoreFault>(
                CoreFault::ResourceNotFound { resource: "search session"@, id: search_id },
            )
            &&& is_session(sig.sessions, search_id, at) ==> {
                &&& r is Ok ==> is_running(session, now) && targets.len() > 0 && distinct_targets(
                    targets,
                ) && fits_embedding(session, active)
                &&& session.expires_at.time is Some && !is_running(session, now) ==> r == Err::<
                    Outcome,
                    CoreFault,
                >(CoreFault::Conflict("search session expired"@))
                &&& is_running(session, now) && targets.len() == 0 ==> r == Err::<
                    Outcome,
                    CoreFault,
                >(CoreFault::Validation("feedback targets must not be empty"@))
                &&& is_running(session, now) && targets.len() > 0 && !distinct_targets(targets)
                    ==> r is Err && r->Err_0 is Validation
                &&& is_running(session, now) && targets.len() > 0 && distinct_targets(targets)
                    && !fits_embedding(session, active) ==> r is Err && r->Err_0 is Conflict
            }
        }),
{
    let start = sessions::swept(sig, now.text@, Some(search_id), sessions::SWEEP as nat);
    feedback_laws::lemma_spared_session(
        sig.sessions,
        sig.results,
        now.text@,
        search_id,
        sessions::SWEEP as nat,
    );
    feedback_laws::lemma_session_at(sig.sessions, search_id, sig.sessions.len());
    lemma_repeated(targets, targets.len());
    assert(targets.take(targets.len() as int) =~= targets);
    let i = feedback::session_at(sig.sessions, search_id, sig.sessions.len());
    if is_session(sig.sessions, search_id, at) {
        if i is None {
            assert(sig.sessions[at].id != search_id);
        } else if i->0 < at {
            assert(sig.sessions[i->0].id != search_id);
        } else if at < i->0 {
            assert(sig.sessions[at].id != search_id);
        }
        assert(i == Some(at));
    }
}

/// A receipt for that search and entry is there.
pub open spec fn is_receipted(receipts: Seq<Receipt>, search_id: Id, entry: Id) -> bool {
    exists|i: int|
        #![trigger receipts[i]]
        0 <= i < receipts.len() && receipts[i].search_id == search_id && receipts[i].entry_id
            == entry
}

proof fn lemma_sorted_ok(
    sig: SignalsSpec,
    index: ContentIndex,
    search_id: Id,
    targets: Seq<FeedbackTarget>,
    n: nat,
)
    requires
        n <= targets.len(),
    ensures
        feedback::sorted(sig, index, search_id, targets, n) is Ok <==> forall|j: int|
            0 <= j < n ==> is_receipted(sig.receipts, search_id, (#[trigger] targets[j]).entry_id)
                || feedback::validated(sig.results, index, search_id, targets[j]) is Ok,
    decreases n,
{
    if n > 0 {
        lemma_sorted_ok(sig, index, search_id, targets, (n - 1) as nat);
        assert(feedback::has_receipt(sig.receipts, search_id, targets[n - 1].entry_id)
            == is_receipted(sig.receipts, search_id, targets[n - 1].entry_id));
    }
}

/// Where the session and the targets as such are in order, feedback is accepted
/// as soon as every target has a receipt or is valid; one target that is
/// neither refuses all. Each applied entry then gets a receipt of its own, and
/// those that were there stay.
pub proof fn law_feedback_is_all_or_nothing(
    sig: SignalsSpec,
    index: ContentIndex,
    search_id: Id,
    targets: Seq<FeedbackTarget>,
    active: Option<ActiveEmbedding>,
    now: Moment,
    max: u8,
    hash: String,
    fresh: Seq<(Id, Id)>,
    at: int,
)
    requires
        is_session(sig.sessions, search_id, at),
        is_running(sig.sessions[at], now),
        targets.len() > 0,
        distinct_targets(targets),
        fits_embedding(sig.sessions[at], active),
        fresh.len() >= targets.len(),
    ensures
        ({
            let r = feedback::feedback(
                sig,
                index,
                search_id,
                targets,
                active,
                now,
                max,
                hash,
                fresh,
            );
            let results = sessions::swept(
                sig,
                now.text@,
                Some(search_id),
                sessions::SWEEP as nat,
            ).results;
            &&& r is Ok <==> forall|j: int|
                0 <= j < targets.len() ==> is_receipted(
                    sig.receipts,
                    search_id,
                    (#[trigger] targets[j]).entry_id,
                ) || feedback::validated(results, index, search_id, targets[j]) is Ok
            &&& r matches Ok(out) ==> {
                let receipts = out.signals.receipts;
                let old_len = sig.receipts.len();
                &&& receipts.len() == old_len + out.applied.len()
                &&& forall|i: int|
                    0 <= i < old_len ==> #[trigger] receipts[i] == sig.receipts[i]
                &&& forall|k: int|
                    0 <= k < out.applied.len() ==> {
                        let receipt = #[trigger] receipts[old_len + k];
                        &&& receipt.search_id == search_id
                        &&& receipt.entry_id == out.applied[k].entry_id
                        &&& !is_receipted(sig.receipts, search_id, receipt.entry_id)
                    }
            }
        }),
{
    let start = sessions::swept(sig, now.text@, Some(search_id), sessions::SWEEP as nat);
    feedback_laws::lemma_spared_session(
        sig.sessions,
        sig.results,
        now.text@,
        search_id,
        sessions::SWEEP as nat,
    );
    feedback_laws::lemma_session_at(sig.sessions, search_id, sig.sessions.len());
    feedback_laws::lemma_session_at(start.sessions, search_id, start.sessions.len());
    lemma_repeated(targets, targets.len());
    assert(targets.take(targets.len() as int) =~= targets);
    lemma_sorted_ok(start, index, search_id, targets, targets.len());
    let i = feedback::session_at(sig.sessions, search_id, sig.sessions.len());
    assert(i == Some(at)) by {
        if i is None {
            assert(sig.sessions[at].id != search_id);
        } else if i->0 < at {
            assert(sig.sessions[i->0].id != search_id);
        } else if at < i->0 {
            assert(sig.sessions[at].id != search_id);
        }
    }
    let r = feedback::feedback(sig, index, search_id, targets, active, now, max, hash, fresh);
    if let Ok(out) = r {
        let accepted = lemma_feedback_runs(
            sig,
            index,
            search_id,
            targets,
            active,
            now,
            max,
            hash,
            fresh,
            out,
            at,
        );
        let p = progress_of(sig);
        let n = accepted.len();
        feedback_laws::lemma_sorted(start, index, search_id, targets, targets.len());
        feedback_laws::lemma_receipts(p, sig.sessions[at], hash, accepted, fresh, now, max, n);
        let receipts = out.signals.receipts;
        assert forall|k: int| 0 <= k < out.applied.len() implies {
            let receipt = #[trigger] receipts[sig.receipts.len() + k];
            &&& receipt.search_id == search_id
            &&& receipt.entry_id == out.applied[k].entry_id
            &&& !is_receipted(sig.receipts, search_id, receipt.entry_id)
        } by {
            assert(out.applied[p.applied.len() + k].entry_id == accepted[k].entry_id);
            assert(!feedback::has_receipt(start.receipts, search_id, accepted[k].entry_id));
            assert(feedback::has_receipt(start.receipts, search_id, accepted[k].entry_id)
                == is_receipted(sig.receipts, search_id, accepted[k].entry_id));
        }
    }
}

/// The search returned the entry, whatever the block and chunk.
pub open spec fn entry_was_returned(results: Seq<SessionResult>, search_id: Id, entry: Id) -> bool {
    exists|i: int|
        #![trigger results[i]]
        0 <= i < results.len() && results[i].search_id == search_id && results[i].target.entry_id
            == entry
}

/// A target is refused for what is wrong with it: an entry that the search did
/// not return, one that is gone, or a block or chunk that the search did not
/// return or that stands elsewhere.
pub proof fn law_refused_targets_say_why(
    results: Seq<SessionResult>,
    index: ContentIndex,
    search_id: Id,
    named: FeedbackTarget,
)
    ensures
        ({
            let r = feedback::validated(results, index, search_id, named);
            let id = ids::text_of_id(named.entry_id);
            &&& !entry_was_returned(results, search_id, named.entry_id) ==> r == Err::<
                FeedbackTarget,
                CoreFault,
            >(CoreFault::Validation("entry was not returned by search session: "@ + id))
            &&& entry_was_returned(results, search_id, named.entry_id) && !index.entries@.contains(
                named.entry_id,
            ) ==> r == Err::<FeedbackTarget, CoreFault>(
                CoreFault::ResourceNotFound { resource: "entry"@, id: named.entry_id },
            )
            &&& entry_was_returned(results, search_id, named.entry_id) && index.entries@.contains(
                named.entry_id,
            ) && r is Err ==> r->Err_0 is Validation
        }),
{
    lemma_recorded(results, search_id, named.entry_id, results.len());
    if let Some(i) = feedback::recorded_for(results, search_id, named.entry_id, results.len()) {
        assert(results[i].search_id == search_id);
    }
}

/// Where targets are refused, the first that is neither applied before nor valid
/// says why.
pub proof fn law_first_bad_target_is_reported(
    sig: SignalsSpec,
    index: ContentIndex,
    search_id: Id,
    targets: Seq<FeedbackTarget>,
    n: nat,
) -> (j: int)
    requires
        n <= targets.len(),
        feedback::sorted(sig, index, search_id, targets, n) is Err,
    ensures
        0 <= j < n,
        !is_receipted(sig.receipts, search_id, targets[j].entry_id),
        feedback::validated(sig.results, index, search_id, targets[j]) is Err,
        feedback::validated(sig.results, index, search_id, targets[j])->Err_0 == feedback::sorted(
            sig,
            index,
            search_id,
            targets,
            n,
        )->Err_0,
        forall|i: int|
            0 <= i < j ==> is_receipted(sig.receipts, search_id, (#[trigger] targets[i]).entry_id)
                || feedback::validated(sig.results, index, search_id, targets[i]) is Ok,
    decreases n,
{
    if n == 0 {
        0
    } else {
        let m = (n - 1) as nat;
        lemma_sorted_ok(sig, index, search_id, targets, m);
        assert(feedback::has_receipt(sig.receipts, search_id, targets[n - 1].entry_id)
            == is_receipted(sig.receipts, search_id, targets[n - 1].entry_id));
        if feedback::sorted(sig, index, search_id, targets, m) is Err {
            law_first_bad_target_is_reported(sig, index, search_id, targets, m)
        } else {
            n - 1
        }
    }
}

/// What feedback leaves and answers is what its result holds.
pub proof fn law_outcome_is_the_result(
    after: sessions::Signals,
    answer: crate::memory_model::FeedbackResult,
    e: crate::error::CoreError,
)
    ensures
        feedback::outcome_of(Ok((after, answer))) == Ok::<Outcome, CoreFault>(
            Outcome {
                signals: after@,
                applied: answer.applied@,
                already_applied: answer.already_applied@,
            },
        ),
        feedback::outcome_of(Err(e)) == Err::<Outcome, CoreFault>(e@),
{
}

} // verus!
