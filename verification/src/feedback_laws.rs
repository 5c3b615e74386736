//! What holds of feedback on search results as a whole.
use vstd::prelude::*;

use crate::affinity_merge::{self, StoreSpec};
use crate::error::CoreFault;
use crate::feedback::{self, ActiveEmbedding, Outcome, Progress, Sorted};
use crate::ids::Id;
use crate::memory_model::FeedbackTarget;
use crate::sessions::{self, SignalsSpec};
use crate::signals::{
    self, Affinity, ContentIndex, EntryStats, Moment, Receipt, Session, SessionResult,
};

verus! {

pub(crate) proof fn lemma_session_at(sessions: Seq<Session>, id: Id, n: nat)
    requires
        n <= sessions.len(),
    ensures
        match feedback::session_at(sessions, id, n) {
            Some(i) => 0 <= i < n && sessions[i].id == id && forall|j: int|
                0 <= j < i ==> (#[trigger] sessions[j]).id != id,
            None => forall|j: int| 0 <= j < n ==> (#[trigger] sessions[j]).id != id,
        },
    decreases n,
{
    if n > 0 {
        lemma_session_at(sessions, id, (n - 1) as nat);
    }
}

/// A sweep keeps the session that it spares.
pub(crate) proof fn lemma_spared_session(
    sessions: Seq<Session>,
    results: Seq<SessionResult>,
    now: Seq<char>,
    id: Id,
    limit: nat,
)
    ensures
        ({
            let after = sessions::sweep(sessions, results, now, Some(id), limit).sessions;
            match feedback::session_at(sessions, id, sessions.len()) {
                Some(i) => feedback::session_at(after, id, after.len()) matches Some(j)
                    && after[j] == sessions[i],
                None => feedback::session_at(after, id, after.len()) is None,
            }
        }),
    decreases limit,
{
    if limit > 0 {
        sessions::lemma_oldest(sessions, now, Some(id), sessions.len());
        match sessions::oldest_expired(sessions, now, Some(id), sessions.len()) {
            None => {},
            Some(k) => {
                let gone = sessions[k].id;
                let rest = sessions.remove(k);
                lemma_spared_session(
                    rest,
                    results.filter(|r: SessionResult| r.search_id != gone),
                    now,
                    id,
                    (limit - 1) as nat,
                );
                lemma_session_at(sessions, id, sessions.len());
                lemma_session_at(rest, id, rest.len());
                match feedback::session_at(sessions, id, sessions.len()) {
                    Some(i) => {
                        let j = if k < i {
                            i - 1
                        } else {
                            i
                        };
                        assert(rest[j] == sessions[i]);
                        match feedback::session_at(rest, id, rest.len()) {
                            Some(m) => {
                                assert(m <= j);
                                let back = if m < k {
                                    m
                                } else {
                                    m + 1
                                };
                                assert(sessions[back] == rest[m]);
                            },
                            None => {},
                        }
                    },
                    None => {
                        match feedback::session_at(rest, id, rest.len()) {
                            Some(m) => {
                                let back = if m < k {
                                    m
                                } else {
                                    m + 1
                                };
                                assert(sessions[back] == rest[m]);
                            },
                            None => {},
                        }
                    },
                }
            },
        }
    }
}

/// Each sorted target has a receipt or is accepted.
pub(crate) proof fn lemma_sorted(
    sig: SignalsSpec,
    index: ContentIndex,
    search_id: Id,
    targets: Seq<FeedbackTarget>,
    n: nat,
)
    requires
        n <= targets.len(),
        feedback::sorted(sig, index, search_id, targets, n) is Ok,
    ensures
        ({
            let s = feedback::sorted(sig, index, search_id, targets, n)->Ok_0;
            &&& s.accepted.len() + s.already.len() == n
            &&& forall|j: int|
                0 <= j < n ==> if feedback::has_receipt(
                    sig.receipts,
                    search_id,
                    (#[trigger] targets[j]).entry_id,
                ) {
                    s.already.contains(targets[j].entry_id)
                } else {
                    exists|k: int|
                        0 <= k < s.accepted.len() && (#[trigger] s.accepted[k]).entry_id
                            == targets[j].entry_id
                }
            &&& forall|k: int|
                0 <= k < s.accepted.len() ==> {
                    &&& !feedback::has_receipt(
                        sig.receipts,
                        search_id,
                        (#[trigger] s.accepted[k]).entry_id,
                    )
                    &&& exists|j: int|
                        0 <= j < n && (#[trigger] targets[j]).entry_id == s.accepted[k].entry_id
                }
            &&& forall|k: int|
                0 <= k < s.already.len() ==> {
                    &&& feedback::has_receipt(sig.receipts, search_id, #[trigger] s.already[k])
                    &&& exists|j: int|
                        0 <= j < n && (#[trigger] targets[j]).entry_id == s.already[k]
                }
        }),
    decreases n,
{
    if n > 0 {
        lemma_sorted(sig, index, search_id, targets, (n - 1) as nat);
        let before = feedback::sorted(sig, index, search_id, targets, (n - 1) as nat)->Ok_0;
        let s = feedback::sorted(sig, index, search_id, targets, n)->Ok_0;
        let last = targets[n - 1];
        let has = feedback::has_receipt(sig.receipts, search_id, last.entry_id);
        if has {
            assert(s.already[s.already.len() - 1] == last.entry_id);
        } else {
            assert(s.accepted[s.accepted.len() - 1].entry_id == last.entry_id);
        }
        assert forall|j: int| 0 <= j < n implies if feedback::has_receipt(
            sig.receipts,
            search_id,
            (#[trigger] targets[j]).entry_id,
        ) {
            s.already.contains(targets[j].entry_id)
        } else {
            exists|k: int|
                0 <= k < s.accepted.len() && (#[trigger] s.accepted[k]).entry_id
                    == targets[j].entry_id
        } by {
            if j < n - 1 {
                if feedback::has_receipt(sig.receipts, search_id, targets[j].entry_id) {
                    let k = choose|k: int|
                        0 <= k < before.already.len() && before.already[k] == targets[j].entry_id;
                    assert(s.already[k] == targets[j].entry_id);
                } else {
                    let k = choose|k: int|
                        0 <= k < before.accepted.len() && (#[trigger] before.accepted[k]).entry_id
                            == targets[j].entry_id;
                    assert(s.accepted[k].entry_id == targets[j].entry_id);
                }
            }
        }
        assert forall|k: int| 0 <= k < s.accepted.len() implies {
            &&& !feedback::has_receipt(
                sig.receipts,
                search_id,
                (#[trigger] s.accepted[k]).entry_id,
            )
            &&& exists|j: int|
                0 <= j < n && (#[trigger] targets[j]).entry_id == s.accepted[k].entry_id
        } by {
            if k < before.accepted.len() {
                assert(s.accepted[k] == before.accepted[k]);
                let j = choose|j: int|
                    0 <= j < n - 1 && (#[trigger] targets[j]).entry_id
                        == before.accepted[k].entry_id;
                assert(targets[j].entry_id == s.accepted[k].entry_id);
            } else {
                assert(targets[n - 1].entry_id == s.accepted[k].entry_id);
            }
        }
        assert forall|k: int| 0 <= k < s.already.len() implies {
            &&& feedback::has_receipt(sig.receipts, search_id, #[trigger] s.already[k])
            &&& exists|j: int| 0 <= j < n && (#[trigger] targets[j]).entry_id == s.already[k]
        } by {
            if k < before.already.len() {
                assert(s.already[k] == before.already[k]);
                let j = choose|j: int|
                    0 <= j < n - 1 && (#[trigger] targets[j]).entry_id == before.already[k];
                assert(targets[j].entry_id == s.already[k]);
            } else {
                assert(targets[n - 1].entry_id == s.already[k]);
            }
        }
    }
}

/// Each applied target leaves a receipt, and receipts stay.
pub(crate) proof fn lemma_receipts(
    p: Progress,
    session: Session,
    hash: String,
    targets: Seq<FeedbackTarget>,
    fresh: Seq<(Id, Id)>,
    now: Moment,
    max: u8,
    n: nat,
)
    requires
        n <= targets.len(),
    ensures
        ({
            let end = feedback::apply_all(p, session, hash, targets, fresh, now, max, n);
            &&& end.receipts.len() == p.receipts.len() + n
            &&& end.applied.len() == p.applied.len() + n
            &&& forall|i: int| 0 <= i < p.receipts.len() ==> end.receipts[i] == p.receipts[i]
            &&& forall|k: int|
                0 <= k < n ==> {
                    let r = #[trigger] end.receipts[p.receipts.len() + k];
                    r.search_id == session.id && r.entry_id == targets[k].entry_id
                }
            &&& forall|k: int|
                0 <= k < n ==> (#[trigger] end.applied[p.applied.len() + k]).entry_id
                    == targets[k].entry_id
        }),
    decreases n,
{
    if n > 0 {
        lemma_receipts(p, session, hash, targets, fresh, now, max, (n - 1) as nat);
    }
}

/// Where every target has a receipt, there is nothing to apply.
proof fn lemma_all_already(
    sig: SignalsSpec,
    index: ContentIndex,
    search_id: Id,
    targets: Seq<FeedbackTarget>,
    n: nat,
)
    requires
        n <= targets.len(),
        forall|j: int|
            0 <= j < targets.len() ==> feedback::has_receipt(
                sig.receipts,
                search_id,
                (#[trigger] targets[j]).entry_id,
            ),
    ensures
        feedback::sorted(sig, index, search_id, targets, n) == Ok::<Sorted, CoreFault>(
            Sorted { already: entries_of(targets.take(n as int)), accepted: Seq::empty() },
        ),
    decreases n,
{
    if n > 0 {
        lemma_all_already(sig, index, search_id, targets, (n - 1) as nat);
        assert(feedback::has_receipt(sig.receipts, search_id, targets[n - 1].entry_id));
        assert(entries_of(targets.take(n as int)) =~= entries_of(targets.take(n - 1)).push(
            targets[n - 1].entry_id,
        ));
    } else {
        assert(entries_of(targets.take(0)) =~= Seq::empty());
    }
}

/// The entries that targets name.
pub open spec fn entries_of(targets: Seq<FeedbackTarget>) -> Seq<Id> {
    targets.map_values(|t: FeedbackTarget| t.entry_id)
}

/// The session of a search exists and has not run out.
pub open spec fn is_open(sig: SignalsSpec, search_id: Id, now: Moment) -> bool {
    feedback::session_at(sig.sessions, search_id, sig.sessions.len()) matches Some(i)
        && sig.sessions[i].expires_at.time matches Some(t) && now.time->0.before(t)
}

/// After accepted feedback, the same feedback changes nothing more while the
/// session is open, whatever has happened to the content meanwhile: every
/// target is answered as applied before, and beyond the sweep of expired
/// sessions everything stays as it was.
pub proof fn law_repeated_feedback_counts_once(
    sig: SignalsSpec,
    index: ContentIndex,
    search_id: Id,
    targets: Seq<FeedbackTarget>,
    active: Option<ActiveEmbedding>,
    now: Moment,
    max: u8,
    hash: String,
    fresh: Seq<(Id, Id)>,
    first: Outcome,
    later_index: ContentIndex,
    later: Moment,
    later_hash: String,
    later_fresh: Seq<(Id, Id)>,
)
    requires
        feedback::feedback(sig, index, search_id, targets, active, now, max, hash, fresh) == Ok::<
            Outcome,
            CoreFault,
        >(first),
        is_open(first.signals, search_id, later),
    ensures
        feedback::feedback(
            first.signals,
            later_index,
            search_id,
            targets,
            active,
            later,
            max,
            later_hash,
            later_fresh,
        ) == Ok::<Outcome, CoreFault>(
            Outcome {
                signals: sessions::swept(
                    first.signals,
                    later.text@,
                    Some(search_id),
                    sessions::SWEEP as nat,
                ),
                applied: Seq::empty(),
                already_applied: entries_of(targets),
            },
        ),
{
    let start = sessions::swept(sig, now.text@, Some(search_id), sessions::SWEEP as nat);
    let at = feedback::session_at(start.sessions, search_id, start.sessions.len())->0;
    lemma_session_at(start.sessions, search_id, start.sessions.len());
    lemma_sorted(start, index, search_id, targets, targets.len());
    let s = feedback::sorted(start, index, search_id, targets, targets.len())->Ok_0;
    let p = Progress {
        receipts: start.receipts,
        stats: start.stats,
        store: start.store,
        applied: Seq::empty(),
    };
    lemma_receipts(
        p,
        start.sessions[at],
        hash,
        s.accepted,
        fresh,
        now,
        max,
        s.accepted.len(),
    );
    let receipts = first.signals.receipts;
    assert forall|j: int| 0 <= j < targets.len() implies feedback::has_receipt(
        receipts,
        search_id,
        (#[trigger] targets[j]).entry_id,
    ) by {
        if feedback::has_receipt(start.receipts, search_id, targets[j].entry_id) {
            let i = choose|i: int|
                0 <= i < start.receipts.len() && (#[trigger] start.receipts[i]).search_id
                    == search_id && start.receipts[i].entry_id == targets[j].entry_id;
            assert(receipts[i] == start.receipts[i]);
        } else {
            let k = choose|k: int|
                0 <= k < s.accepted.len() && (#[trigger] s.accepted[k]).entry_id
                    == targets[j].entry_id;
            assert(receipts[start.receipts.len() + k].entry_id == targets[j].entry_id);
        }
    }
    let again = sessions::swept(
        first.signals,
        later.text@,
        Some(search_id),
        sessions::SWEEP as nat,
    );
    lemma_spared_session(
        first.signals.sessions,
        first.signals.results,
        later.text@,
        search_id,
        sessions::SWEEP as nat,
    );
    let back = feedback::session_at(again.sessions, search_id, again.sessions.len())->0;
    lemma_session_at(again.sessions, search_id, again.sessions.len());
    assert(again.sessions[back].id == search_id);
    assert(first.signals.sessions == start.sessions);
    lemma_all_already(again, later_index, search_id, targets, targets.len());
    assert(targets.take(targets.len() as int) =~= targets);
}

/// Accepted feedback answers each target once: an entry is either applied now
/// or was applied before, never both, and nothing else is answered.
pub proof fn law_each_target_is_answered_once(
    sig: SignalsSpec,
    index: ContentIndex,
    search_id: Id,
    targets: Seq<FeedbackTarget>,
    active: Option<ActiveEmbedding>,
    now: Moment,
    max: u8,
    hash: String,
    fresh: Seq<(Id, Id)>,
    out: Outcome,
)
    requires
        feedback::feedback(sig, index, search_id, targets, active, now, max, hash, fresh) == Ok::<
            Outcome,
            CoreFault,
        >(out),
    ensures
        out.applied.len() + out.already_applied.len() == targets.len(),
        forall|entry: Id|
            #![trigger entries_of(targets).contains(entry)]
            entries_of(targets).contains(entry) <==> (was_applied(out, entry)
                || out.already_applied.contains(entry)),
        forall|entry: Id| !(#[trigger] was_applied(out, entry) && out.already_applied.contains(entry)),
{
    let start = sessions::swept(sig, now.text@, Some(search_id), sessions::SWEEP as nat);
    let at = feedback::session_at(start.sessions, search_id, start.sessions.len())->0;
    lemma_session_at(start.sessions, search_id, start.sessions.len());
    lemma_sorted(start, index, search_id, targets, targets.len());
    let s = feedback::sorted(start, index, search_id, targets, targets.len())->Ok_0;
    let p = Progress {
        receipts: start.receipts,
        stats: start.stats,
        store: start.store,
        applied: Seq::empty(),
    };
    lemma_receipts(
        p,
        start.sessions[at],
        hash,
        s.accepted,
        fresh,
        now,
        max,
        s.accepted.len(),
    );
    assert forall|k: int| 0 <= k < s.accepted.len() implies (#[trigger] out.applied[k]).entry_id
        == s.accepted[k].entry_id by {
        assert(out.applied[p.applied.len() + k].entry_id == s.accepted[k].entry_id);
    }
    assert forall|entry: Id|
        #![trigger entries_of(targets).contains(entry)]
        entries_of(targets).contains(entry) <==> (was_applied(out, entry)
            || out.already_applied.contains(entry)) by {
        if entries_of(targets).contains(entry) {
            let j = choose|j: int|
                0 <= j < entries_of(targets).len() && entries_of(targets)[j] == entry;
            assert(targets[j].entry_id == entry);
            if !feedback::has_receipt(start.receipts, search_id, entry) {
                let k = choose|k: int|
                    0 <= k < s.accepted.len() && (#[trigger] s.accepted[k]).entry_id == entry;
                assert(out.applied[k].entry_id == entry);
            }
        }
        if was_applied(out, entry) {
            let k = choose|k: int|
                0 <= k < out.applied.len() && (#[trigger] out.applied[k]).entry_id == entry;
            assert(s.accepted[k].entry_id == entry);
            let j = choose|j: int|
                0 <= j < targets.len() && (#[trigger] targets[j]).entry_id == entry;
            assert(entries_of(targets)[j] == entry);
        }
        if out.already_applied.contains(entry) {
            let k = choose|k: int|
                0 <= k < out.already_applied.len() && out.already_applied[k] == entry;
            assert(s.already[k] == entry);
            let j = choose|j: int|
                0 <= j < targets.len() && (#[trigger] targets[j]).entry_id == entry;
            assert(entries_of(targets)[j] == entry);
        }
    }
    assert forall|entry: Id| !(#[trigger] was_applied(out, entry) && out.already_applied.contains(
        entry,
    )) by {
        if was_applied(out, entry) && out.already_applied.contains(entry) {
            let k = choose|k: int|
                0 <= k < out.applied.len() && (#[trigger] out.applied[k]).entry_id == entry;
            assert(s.accepted[k].entry_id == entry);
            let i = choose|i: int|
                0 <= i < out.already_applied.len() && out.already_applied[i] == entry;
            assert(feedback::has_receipt(start.receipts, search_id, s.already[i]));
        }
    }
}

/// Feedback for the entry was applied.
pub open spec fn was_applied(out: Outcome, entry: Id) -> bool {
    exists|k: int| 0 <= k < out.applied.len() && (#[trigger] out.applied[k]).entry_id == entry
}

/// One row for each entry, and no count beyond `max`.
pub open spec fn stats_valid(stats: Seq<EntryStats>, max: u8) -> bool {
    &&& forall|i: int, j: int|
        0 <= i < j < stats.len() ==> (#[trigger] stats[i]).entry_id != (
        #[trigger] stats[j]).entry_id
    &&& forall|i: int| 0 <= i < stats.len() ==> (#[trigger] stats[i]).reinforcement_count <= max
}

/// A search has one receipt for an entry at most.
pub open spec fn receipts_valid(receipts: Seq<Receipt>) -> bool {
    forall|i: int, j: int|
        0 <= i < j < receipts.len() ==> (#[trigger] receipts[i]).search_id != (
        #[trigger] receipts[j]).search_id || receipts[i].entry_id != receipts[j].entry_id
}

/// A well-formed store in which every vector has its example and no count is
/// beyond `max`.
pub open spec fn store_valid(store: StoreSpec, max: u8) -> bool {
    &&& store.well_formed()
    &&& affinity_merge::vectors_have_examples(store)
    &&& forall|i: int|
        0 <= i < store.affinities.len() ==> (#[trigger] store.affinities[i]).reinforcement_count
            <= max
}

/// What adaptive memory keeps to at all times.
pub open spec fn memory_valid(sig: SignalsSpec, max: u8) -> bool {
    stats_valid(sig.stats, max) && receipts_valid(sig.receipts) && store_valid(sig.store, max)
}

/// No example has the identifier.
pub open spec fn is_new(rows: Seq<Affinity>, id: Id) -> bool {
    forall|i: int| 0 <= i < rows.len() ==> (#[trigger] rows[i]).id != id
}

pub(crate) proof fn lemma_stats_at(stats: Seq<EntryStats>, entry: Id, n: nat)
    requires
        n <= stats.len(),
    ensures
        match feedback::stats_at(stats, entry, n) {
            Some(i) => 0 <= i < n && stats[i].entry_id == entry,
            None => forall|j: int| 0 <= j < n ==> (#[trigger] stats[j]).entry_id != entry,
        },
    decreases n,
{
    if n > 0 {
        lemma_stats_at(stats, entry, (n - 1) as nat);
    }
}

proof fn lemma_stats_step(stats: Seq<EntryStats>, entry: Id, now: Moment, max: u8)
    requires
        stats_valid(stats, max),
        max >= 1,
    ensures
        ({
            let row = feedback::reinforced_stats(stats, entry, now, max);
            stats_valid(feedback::with_stats(stats, row), max)
        }),
{
    lemma_stats_at(stats, entry, stats.len());
}

proof fn lemma_store_step(
    store: StoreSpec,
    session: Session,
    hash: String,
    target: FeedbackTarget,
    fresh: Id,
    now: Moment,
    max: u8,
)
    requires
        store_valid(store, max),
        max >= 1,
        is_new(store.affinities, fresh),
    ensures
        ({
            let row = feedback::reinforced_example(
                store.affinities,
                session,
                hash,
                target,
                fresh,
                now,
                max,
            );
            let after = feedback::with_example(store, session, hash, target, row);
            &&& store_valid(after, max)
            &&& forall|id: Id|
                id != fresh && #[trigger] is_new(store.affinities, id) ==> is_new(
                    after.affinities,
                    id,
                )
        }),
{
    let rows = store.affinities;
    let row = feedback::reinforced_example(rows, session, hash, target, fresh, now, max);
    let after = feedback::with_example(store, session, hash, target, row);
    let wanted = |a: Affinity|
        a.has_target(
            hash@,
            session.embedding_model@,
            target.entry_id,
            target.block_id,
            target.chunk_id,
        );
    let keep = |v: (Id, Seq<u8>)| v.0 != row.id;
    affinity_merge::lemma_first_row(rows, wanted, rows.len());
    affinity_merge::lemma_filter_vectors(store.vectors, keep);
    affinity_merge::lemma_push_vector(
        store.vectors.filter(keep),
        row.id,
        session.query_embedding@,
    );
    assert forall|id: Id| affinity_merge::has_example(rows, id) implies
        #[trigger] affinity_merge::has_example(after.affinities, id) by {
        let j = choose|j: int| 0 <= j < rows.len() && (#[trigger] rows[j]).id == id;
        assert(after.affinities[j].id == id);
    }
    match feedback::example_at(rows, session, hash, target) {
        Some(i) => {
            assert(after.affinities[i].id == row.id);
            assert forall|j: int, k: int| 0 <= j < k < rows.len() implies
                !affinity_merge::same_target(
                #[trigger] after.affinities[j],
                #[trigger] after.affinities[k],
            ) by {
                assert(!affinity_merge::same_target(rows[j], rows[k]));
            }
        },
        None => {
            assert(after.affinities[rows.len() as int].id == row.id);
            assert forall|j: int, k: int| 0 <= j < k < after.affinities.len() implies
                !affinity_merge::same_target(
                #[trigger] after.affinities[j],
                #[trigger] after.affinities[k],
            ) by {
                if k < rows.len() {
                    assert(!affinity_merge::same_target(rows[j], rows[k]));
                } else {
                    assert(!wanted(rows[j]));
                }
            }
        },
    }
    assert forall|i: int| 0 <= i < after.vectors.len() implies affinity_merge::has_example(
        after.affinities,
        (#[trigger] after.vectors[i]).0,
    ) by {
        if i < store.vectors.filter(keep).len() {
            let v = store.vectors.filter(keep)[i];
            let j = choose|j: int| 0 <= j < store.vectors.len() && store.vectors[j] == v;
            assert(affinity_merge::has_example(rows, store.vectors[j].0));
        }
    }
    assert forall|id: Id| id != fresh && #[trigger] is_new(rows, id) implies is_new(
        after.affinities,
        id,
    ) by {
        assert forall|i: int| 0 <= i < after.affinities.len() implies (
        #[trigger] after.affinities[i]).id != id by {
            if i < rows.len() {
                assert(rows[i].id != id);
            }
        }
    }
}

pub(crate) proof fn lemma_apply_valid(
    p: Progress,
    session: Session,
    hash: String,
    targets: Seq<FeedbackTarget>,
    fresh: Seq<(Id, Id)>,
    now: Moment,
    max: u8,
    n: nat,
)
    requires
        n <= targets.len(),
        n <= fresh.len(),
        max >= 1,
        stats_valid(p.stats, max),
        store_valid(p.store, max),
        forall|k: int| 0 <= k < fresh.len() ==> is_new(p.store.affinities, #[trigger] fresh[k].1),
        forall|j: int, k: int|
            0 <= j < k < fresh.len() ==> (#[trigger] fresh[j]).1 != (#[trigger] fresh[k]).1,
    ensures
        ({
            let end = feedback::apply_all(p, session, hash, targets, fresh, now, max, n);
            &&& stats_valid(end.stats, max)
            &&& store_valid(end.store, max)
            &&& forall|k: int|
                n <= k < fresh.len() ==> is_new(end.store.affinities, #[trigger] fresh[k].1)
        }),
    decreases n,
{
    if n > 0 {
        let m = (n - 1) as nat;
        lemma_apply_valid(p, session, hash, targets, fresh, now, max, m);
        let before = feedback::apply_all(p, session, hash, targets, fresh, now, max, m);
        assert(is_new(before.store.affinities, fresh[n - 1].1));
        lemma_stats_step(before.stats, targets[n - 1].entry_id, now, max);
        lemma_store_step(
            before.store,
            session,
            hash,
            targets[n - 1],
            fresh[n - 1].1,
            now,
            max,
        );
    }
}

/// The targets that are accepted name different entries.
pub(crate) proof fn lemma_accepted_distinct(
    sig: SignalsSpec,
    index: ContentIndex,
    search_id: Id,
    targets: Seq<FeedbackTarget>,
    n: nat,
)
    requires
        n <= targets.len(),
        feedback::repeated(targets, n) is None,
        feedback::sorted(sig, index, search_id, targets, n) is Ok,
    ensures
        ({
            let s = feedback::sorted(sig, index, search_id, targets, n)->Ok_0;
            forall|i: int, j: int|
                0 <= i < j < s.accepted.len() ==> (#[trigger] s.accepted[i]).entry_id != (
                #[trigger] s.accepted[j]).entry_id
        }),
    decreases n,
{
    if n > 0 {
        let m = (n - 1) as nat;
        lemma_accepted_distinct(sig, index, search_id, targets, m);
        lemma_sorted(sig, index, search_id, targets, m);
    }
}

/// Feedback keeps memory valid: one row for each entry and each example, one
/// receipt for each search and entry, and no count beyond the limit. New
/// examples get identifiers that are not in use.
pub proof fn law_feedback_keeps_memory_valid(
    sig: SignalsSpec,
    index: ContentIndex,
    search_id: Id,
    targets: Seq<FeedbackTarget>,
    active: Option<ActiveEmbedding>,
    now: Moment,
    max: u8,
    hash: String,
    fresh: Seq<(Id, Id)>,
    out: Outcome,
)
    requires
        memory_valid(sig, max),
        max >= 1,
        fresh.len() >= targets.len(),
        forall|k: int| 0 <= k < fresh.len() ==> is_new(sig.store.affinities, #[trigger] fresh[k].1),
        forall|j: int, k: int|
            0 <= j < k < fresh.len() ==> (#[trigger] fresh[j]).1 != (#[trigger] fresh[k]).1,
        feedback::feedback(sig, index, search_id, targets, active, now, max, hash, fresh) == Ok::<
            Outcome,
            CoreFault,
        >(out),
    ensures
        memory_valid(out.signals, max),
{
    let start = sessions::swept(sig, now.text@, Some(search_id), sessions::SWEEP as nat);
    let at = feedback::session_at(start.sessions, search_id, start.sessions.len())->0;
    lemma_session_at(start.sessions, search_id, start.sessions.len());
    lemma_sorted(start, index, search_id, targets, targets.len());
    lemma_accepted_distinct(start, index, search_id, targets, targets.len());
    let s = feedback::sorted(start, index, search_id, targets, targets.len())->Ok_0;
    let p = Progress {
        receipts: start.receipts,
        stats: start.stats,
        store: start.store,
        applied: Seq::empty(),
    };
    let n = s.accepted.len();
    lemma_receipts(p, start.sessions[at], hash, s.accepted, fresh, now, max, n);
    lemma_apply_valid(p, start.sessions[at], hash, s.accepted, fresh, now, max, n);
    let receipts = out.signals.receipts;
    assert forall|i: int, j: int| 0 <= i < j < receipts.len() implies (
    #[trigger] receipts[i]).search_id != (#[trigger] receipts[j]).search_id
        || receipts[i].entry_id != receipts[j].entry_id by {
        let old_len = start.receipts.len();
        if j < old_len {
            assert(receipts[i] == start.receipts[i] && receipts[j] == start.receipts[j]);
        } else {
            assert(receipts[old_len + (j - old_len)].entry_id == s.accepted[j - old_len].entry_id);
            if i < old_len {
                assert(receipts[i] == start.receipts[i]);
                assert(!feedback::has_receipt(
                    start.receipts,
                    search_id,
                    s.accepted[j - old_len].entry_id,
                ));
            } else {
                assert(receipts[old_len + (i - old_len)].entry_id == s.accepted[i
                    - old_len].entry_id);
            }
        }
    }
}

} // verus!
