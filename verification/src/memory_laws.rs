//! What holds of adaptive memory: how examples merge, how sessions run out,
//! what weights rest on, and which content is marked.
use vstd::prelude::*;
use vstd::string::*;

use crate::affinity_merge::{self, Degraded, PrecisionUpdate};
use crate::attrs::{self, AttrSpec, AttrsSpec, Members};
use crate::entry_signals::{self, EntryCreated, SignalBasis};
use crate::feedback;
use crate::float_bits::{self, F64Bits};
use crate::ids::Id;
use crate::listing_laws::no_later;
use crate::lookup_laws::{is_below, is_example};
use crate::memory_model::MemoryPolicy;
use crate::sessions;
use crate::signals::{self, Affinity, EntryStats, Session, SessionResult, Vectors};
use crate::text;
use crate::time::Timestamp;
use crate::visibility;

verus! {

/// `a` was reinforced last, or, where both were at once, updated last, or else
/// has the larger identifier.
pub open spec fn is_latest(a: Affinity, b: Affinity) -> bool {
    let (ar, br) = (a.last_reinforced_at.time->0, b.last_reinforced_at.time->0);
    let (au, bu) = (a.updated_at.time->0, b.updated_at.time->0);
    if ar != br {
        no_later(br, ar)
    } else if au != bu {
        no_later(bu, au)
    } else {
        a.id > b.id
    }
}

/// Both examples have readable times.
pub open spec fn are_readable(a: Affinity, b: Affinity) -> bool {
    &&& a.last_reinforced_at.time is Some && b.last_reinforced_at.time is Some
    &&& a.updated_at.time is Some && b.updated_at.time is Some
    &&& a.created_at.time is Some && b.created_at.time is Some
}

/// Two examples become one: it keeps the survivor's name and place, the query,
/// dimension and vector of the latest, the larger count, the later
/// reinforcement and update and the earlier creation. Where a time cannot be
/// read they do not.
pub proof fn law_merged_example(vectors: Vectors, survivor: Affinity, degraded: Affinity)
    ensures
        affinity_merge::unreadable(survivor, degraded) is None <==> are_readable(survivor, degraded),
        are_readable(survivor, degraded) && survivor.id != degraded.id ==> {
            let m = affinity_merge::merged(survivor, degraded);
            let latest = if is_latest(survivor, degraded) {
                survivor
            } else {
                degraded
            };
            &&& m.id == survivor.id
            &&& m.query_hash == survivor.query_hash
            &&& m.embedding_model == survivor.embedding_model
            &&& m.entry_id == survivor.entry_id
            &&& m.block_id == survivor.block_id
            &&& m.chunk_id == survivor.chunk_id
            &&& m.raw_query_text == latest.raw_query_text
            &&& m.effective_query_text == latest.effective_query_text
            &&& m.embedding_dim == latest.embedding_dim
            &&& m.reinforcement_count >= survivor.reinforcement_count && m.reinforcement_count
                >= degraded.reinforcement_count
            &&& m.reinforcement_count == survivor.reinforcement_count || m.reinforcement_count
                == degraded.reinforcement_count
            &&& m.last_reinforced_at == survivor.last_reinforced_at || m.last_reinforced_at
                == degraded.last_reinforced_at
            &&& no_later(survivor.last_reinforced_at.time->0, m.last_reinforced_at.time->0)
                && no_later(degraded.last_reinforced_at.time->0, m.last_reinforced_at.time->0)
            &&& m.updated_at == survivor.updated_at || m.updated_at == degraded.updated_at
            &&& no_later(survivor.updated_at.time->0, m.updated_at.time->0) && no_later(
                degraded.updated_at.time->0,
                m.updated_at.time->0,
            )
            &&& m.created_at == survivor.created_at || m.created_at == degraded.created_at
            &&& no_later(m.created_at.time->0, survivor.created_at.time->0) && no_later(
                m.created_at.time->0,
                degraded.created_at.time->0,
            )
            &&& forall|e: Seq<u8>| #[trigger]
                is_kept_vector(vectors, survivor, degraded, e) <==> (
                affinity_merge::vector_of(vectors, latest.id, vectors.len()) == Some(e) || (
                affinity_merge::vector_of(vectors, latest.id, vectors.len()) is None && (
                affinity_merge::vector_of(vectors, survivor.id, vectors.len()) == Some(e)
                    || affinity_merge::vector_of(vectors, degraded.id, vectors.len()) == Some(e))))
        },
{
}

/// `e` is the vector that the two keep.
pub open spec fn is_kept_vector(
    vectors: Vectors,
    survivor: Affinity,
    degraded: Affinity,
    e: Seq<u8>,
) -> bool {
    affinity_merge::merged_vector(vectors, survivor, degraded) == Some(e)
}

/// Another example of the same query and model has that entry, block and chunk
/// already.
pub open spec fn is_rival(rows: Seq<Affinity>, a: Affinity, update: PrecisionUpdate, k: int) -> bool {
    &&& 0 <= k < rows.len()
    &&& rows[k].id != a.id
    &&& rows[k].query_hash@ == a.query_hash@
    &&& rows[k].embedding_model@ == a.embedding_model@
    &&& rows[k].entry_id == a.entry_id
    &&& rows[k].block_id == update.block_id
    &&& rows[k].chunk_id == update.chunk_id
}

/// An example that loses precision without a rival is sent to its new place and
/// stays as it is otherwise; other examples and all vectors stay.
pub proof fn law_precision_is_lost_in_place(d: Degraded, update: PrecisionUpdate, at: int)
    requires
        is_example(d.store.affinities, update.affinity_id, at),
        forall|k: int| !#[trigger] is_rival(
            d.store.affinities,
            d.store.affinities[at],
            update,
            k,
        ),
    ensures
        affinity_merge::degrade_one(d, update) matches Ok(after) && {
            let (old, new) = (d.store.affinities, after.store.affinities);
            &&& new.len() == old.len()
            &&& forall|x: int| 0 <= x < old.len() && x != at ==> #[trigger] new[x] == old[x]
            &&& new[at].block_id == update.block_id
            &&& new[at].chunk_id == update.chunk_id
            &&& new[at] == (Affinity {
                block_id: new[at].block_id,
                chunk_id: new[at].chunk_id,
                ..old[at]
            })
            &&& after.store.vectors == d.store.vectors
            &&& after.rows == d.rows + 1
            &&& after.vectors_deleted == d.vectors_deleted
        },
{
    lemma_found(d.store.affinities, update, at);
    let rows = d.store.affinities;
    let wanted = |a: Affinity|
        a.id != update.affinity_id && a.has_target(
            rows[at].query_hash@,
            rows[at].embedding_model@,
            rows[at].entry_id,
            update.block_id,
            update.chunk_id,
        );
    affinity_merge::lemma_first_row(rows, wanted, rows.len());
    if let Some(k) = affinity_merge::collision_of(rows, rows[at], update) {
        assert(wanted(rows[k]));
        assert(is_rival(rows, rows[at], update, k));
    }
}

proof fn lemma_found(rows: Seq<Affinity>, update: PrecisionUpdate, at: int)
    requires
        is_example(rows, update.affinity_id, at),
    ensures
        affinity_merge::row_of_id(rows, update.affinity_id) == Some(at),
{
    let wanted = |a: Affinity| a.id == update.affinity_id;
    affinity_merge::lemma_first_row(rows, wanted, rows.len());
    match affinity_merge::row_of_id(rows, update.affinity_id) {
        Some(i) => {
            assert(wanted(rows[i]));
            if i < at {
                assert(rows[i].id != update.affinity_id);
            } else if at < i {
                assert(!wanted(rows[at]));
            }
        },
        None => {
            assert(!wanted(rows[at]));
        },
    }
}

/// An example that meets a rival goes: the rival takes it in, at its own place,
/// every other example stays, and of vectors only theirs change.
pub proof fn law_rival_takes_the_example_in(d: Degraded, update: PrecisionUpdate, at: int, k: int)
    requires
        affinity_merge::distinct_ids(d.store.affinities),
        is_example(d.store.affinities, update.affinity_id, at),
        is_rival(d.store.affinities, d.store.affinities[at], update, k),
        forall|j: int| 0 <= j < k ==> !#[trigger] is_rival(
            d.store.affinities,
            d.store.affinities[at],
            update,
            j,
        ),
    ensures
        ({
            let old = d.store.affinities;
            let r = affinity_merge::degrade_one(d, update);
            &&& r is Ok <==> are_readable(old[k], old[at])
            &&& r matches Ok(after) ==> {
                &&& after.store.affinities == old.update(
                    k,
                    affinity_merge::merged(old[k], old[at]),
                ).remove(at)
                &&& after.rows == d.rows + 1
                &&& forall|v: (Id, Seq<u8>)|
                    #![trigger after.store.vectors.contains(v)]
                    v.0 != old[k].id ==> (after.store.vectors.contains(v)
                        <==> d.store.vectors.contains(v) && v.0 != old[at].id)
                &&& forall|e: Seq<u8>| #[trigger]
                    after.store.vectors.contains((old[k].id, e)) <==> is_kept_vector(
                        d.store.vectors,
                        old[k],
                        old[at],
                        e,
                    )
            }
        }),
{
    let rows = d.store.affinities;
    lemma_found(rows, update, at);
    let wanted = |a: Affinity|
        a.id != update.affinity_id && a.has_target(
            rows[at].query_hash@,
            rows[at].embedding_model@,
            rows[at].entry_id,
            update.block_id,
            update.chunk_id,
        );
    affinity_merge::lemma_first_row(rows, wanted, rows.len());
    match affinity_merge::collision_of(rows, rows[at], update) {
        Some(x) => {
            assert(wanted(rows[x]));
            if x < k {
                assert(is_rival(rows, rows[at], update, x));
            } else if k < x {
                assert(!wanted(rows[k]));
            }
        },
        None => {
            assert(!wanted(rows[k]));
        },
    }
    law_merged_example(d.store.vectors, rows[k], rows[at]);
    if let Ok(after) = affinity_merge::degrade_one(d, update) {
        let keep = |v: (Id, Seq<u8>)| v.0 != rows[k].id && v.0 != rows[at].id;
        signals::lemma_filter_rows(d.store.vectors, keep);
        let others = d.store.vectors.filter(keep);
        assert forall|v: (Id, Seq<u8>)|
            #![trigger after.store.vectors.contains(v)]
            v.0 != rows[k].id implies (after.store.vectors.contains(v) <==> d.store.vectors.contains(v)
            && v.0 != rows[at].id) by {
            assert(others.contains(v) <==> d.store.vectors.contains(v) && keep(v));
            if others.contains(v) {
                let i = choose|i: int| 0 <= i < others.len() && others[i] == v;
                assert(after.store.vectors[i] == v);
            }
            if after.store.vectors.contains(v) {
                let i = choose|i: int|
                    0 <= i < after.store.vectors.len() && after.store.vectors[i] == v;
                if i < others.len() {
                    assert(others[i] == v);
                }
            }
        }
        assert forall|e: Seq<u8>| #[trigger] after.store.vectors.contains((rows[k].id, e))
            <==> is_kept_vector(d.store.vectors, rows[k], rows[at], e) by {
            let v = (rows[k].id, e);
            assert(!others.contains(v));
            if is_kept_vector(d.store.vectors, rows[k], rows[at], e) {
                assert(after.store.vectors[others.len() as int] == v);
            }
            if after.store.vectors.contains(v) {
                let i = choose|i: int|
                    0 <= i < after.store.vectors.len() && after.store.vectors[i] == v;
                if i < others.len() {
                    assert(others[i] == v);
                    assert(others.contains(v));
                }
            }
        }
    }
}

proof fn lemma_vector_of(vectors: Vectors, id: Id, n: nat)
    requires
        n <= vectors.len(),
    ensures
        match affinity_merge::vector_of(vectors, id, n) {
            Some(e) => exists|i: int| 0 <= i < n && #[trigger] vectors[i] == (id, e),
            None => forall|i: int| 0 <= i < n ==> (#[trigger] vectors[i]).0 != id,
        },
    decreases n,
{
    if n > 0 {
        lemma_vector_of(vectors, id, (n - 1) as nat);
        if let Some(e) = affinity_merge::vector_of(vectors, id, (n - 1) as nat) {
            let i = choose|i: int| 0 <= i < n - 1 && #[trigger] vectors[i] == (id, e);
            assert(vectors[i] == (id, e));
        } else if vectors[n - 1].0 == id {
            assert(vectors[n - 1] == (id, vectors[n - 1].1));
        }
    }
}

/// The vector of an example is the one that is stored for it, and there is none
/// only where none is stored.
pub proof fn law_vector_of_an_example(vectors: Vectors, id: Id)
    requires
        affinity_merge::distinct_vectors(vectors),
    ensures
        forall|e: Seq<u8>|
            affinity_merge::vector_of(vectors, id, vectors.len()) == Some(e)
                <==> #[trigger] vectors.contains((id, e)),
{
    lemma_vector_of(vectors, id, vectors.len());
    assert forall|e: Seq<u8>|
        affinity_merge::vector_of(vectors, id, vectors.len()) == Some(e)
            <==> #[trigger] vectors.contains((id, e)) by {
        if vectors.contains((id, e)) {
            let j = choose|j: int| 0 <= j < vectors.len() && vectors[j] == (id, e);
            assert(vectors[j].0 == id);
            let x = affinity_merge::vector_of(vectors, id, vectors.len())->0;
            let i = choose|i: int| 0 <= i < vectors.len() && #[trigger] vectors[i] == (id, x);
            if i < j {
                assert(vectors[i].0 != vectors[j].0);
            } else if j < i {
                assert(vectors[j].0 != vectors[i].0);
            }
        }
    }
}

/// An example that is gone is passed over.
pub proof fn law_missing_example_is_passed_over(d: Degraded, update: PrecisionUpdate)
    requires
        forall|i: int|
            0 <= i < d.store.affinities.len() ==> (#[trigger] d.store.affinities[i]).id
                != update.affinity_id,
    ensures
        affinity_merge::degrade_one(d, update) == Ok::<Degraded, crate::error::CoreFault>(d),
{
    let wanted = |a: Affinity| a.id == update.affinity_id;
    affinity_merge::lemma_first_row(d.store.affinities, wanted, d.store.affinities.len());
    if let Some(i) = affinity_merge::row_of_id(d.store.affinities, update.affinity_id) {
        assert(wanted(d.store.affinities[i]));
    }
}

/// A sweep keeps the results of every session that it keeps, and drops those of
/// a session that it removes, as long as no two sessions have one identifier.
pub proof fn law_results_go_with_their_session(
    all: Seq<Session>,
    results: Seq<SessionResult>,
    now: Seq<char>,
    spared: Option<Id>,
    limit: nat,
    r: SessionResult,
)
    requires
        forall|i: int, j: int|
            0 <= i < j < all.len() ==> (#[trigger] all[i]).id != (#[trigger] all[j]).id,
    ensures
        ({
            let after = sessions::sweep(all, results, now, spared, limit);
            after.results.contains(r) <==> results.contains(r) && !exists|i: int|
                0 <= i < all.len() && (#[trigger] all[i]).id == r.search_id
                    && !after.sessions.contains(all[i])
        }),
        forall|s: Session| #[trigger]
            sessions::sweep(all, results, now, spared, limit).sessions.contains(s)
                ==> all.contains(s),
    decreases limit,
{
    let after = sessions::sweep(all, results, now, spared, limit);
    sessions::law_sweep_is_bounded_and_oldest_first(all, results, now, spared, limit);
    if limit == 0 {
        assert forall|i: int| 0 <= i < all.len() implies after.sessions.contains(
            #[trigger] all[i],
        ) by {}
    } else {
        sessions::lemma_oldest(all, now, spared, all.len());
        match sessions::oldest_expired(all, now, spared, all.len()) {
            None => {
                assert forall|i: int| 0 <= i < all.len() implies after.sessions.contains(
                    #[trigger] all[i],
                ) by {}
            },
            Some(k) => {
                let id = all[k].id;
                let rest = all.remove(k);
                let kept = results.filter(|r: SessionResult| r.search_id != id);
                assert forall|i: int, j: int| 0 <= i < j < rest.len() implies (
                #[trigger] rest[i]).id != (#[trigger] rest[j]).id by {
                    let a = if i < k {
                        i
                    } else {
                        i + 1
                    };
                    let b = if j < k {
                        j
                    } else {
                        j + 1
                    };
                    assert(all[a].id != all[b].id);
                }
                law_results_go_with_their_session(
                    rest,
                    kept,
                    now,
                    spared,
                    (limit - 1) as nat,
                    r,
                );
                signals::lemma_filter_rows(results, |r: SessionResult| r.search_id != id);
                assert(!after.sessions.contains(all[k])) by {
                    if after.sessions.contains(all[k]) {
                        assert(rest.contains(all[k]));
                        let x = choose|x: int| 0 <= x < rest.len() && rest[x] == all[k];
                        let y = if x < k {
                            x
                        } else {
                            x + 1
                        };
                        assert(all[y] == rest[x]);
                        if y < k {
                            assert(all[y].id != all[k].id);
                        } else {
                            assert(all[k].id != all[y].id);
                        }
                    }
                }
                if exists|i: int|
                    0 <= i < all.len() && (#[trigger] all[i]).id == r.search_id
                        && !after.sessions.contains(all[i]) {
                    let i = choose|i: int|
                        0 <= i < all.len() && (#[trigger] all[i]).id == r.search_id
                            && !after.sessions.contains(all[i]);
                    if i < k {
                        assert(rest[i] == all[i]);
                    } else if i > k {
                        assert(rest[i - 1] == all[i]);
                    }
                }
                if exists|i: int|
                    0 <= i < rest.len() && (#[trigger] rest[i]).id == r.search_id
                        && !after.sessions.contains(rest[i]) {
                    let i = choose|i: int|
                        0 <= i < rest.len() && (#[trigger] rest[i]).id == r.search_id
                            && !after.sessions.contains(rest[i]);
                    let y = if i < k {
                        i
                    } else {
                        i + 1
                    };
                    assert(all[y] == rest[i]);
                }
                if r.search_id == id {
                    assert(all[k].id == r.search_id);
                }
            },
        }
    }
}

/// A session is expired once its end is no later than now, as texts compare,
/// unless it is the one to spare; and of two the older ends first.
pub proof fn law_expired_sessions(s: Session, t: Session, now: Seq<char>, spared: Option<Id>)
    ensures
        sessions::expired(s, now, spared) <==> spared != Some(s.id) && (s.expires_at.text@ == now
            || text::precedes(s.expires_at.text@, now)),
        text::precedes(s.expires_at.text@, t.expires_at.text@) ==> sessions::older(s, t)
            && !sessions::older(t, s),
        s.expires_at.text@ == t.expires_at.text@ && text::precedes(
            s.created_at.text@,
            t.created_at.text@,
        ) ==> sessions::older(s, t) && !sessions::older(t, s),
        s.expires_at.text@ == t.expires_at.text@ && s.created_at.text@ == t.created_at.text@ ==> (
        sessions::older(s, t) <==> s.id < t.id),
{
    text::law_text_order_is_total(s.expires_at.text@, now);
    text::law_text_order_is_total(s.expires_at.text@, t.expires_at.text@);
    text::law_text_order_is_total(s.created_at.text@, t.created_at.text@);
}

/// `a` precedes `b` where the first character in which they differ is smaller,
/// or `a` ends before it.
pub proof fn law_texts_compare_by_first_difference(a: Seq<char>, b: Seq<char>, i: int)
    requires
        0 <= i <= a.len(),
        i <= b.len(),
        a.take(i) == b.take(i),
        i == a.len() || i == b.len() || a[i] != b[i],
    ensures
        text::precedes(a, b) <==> (i < b.len() && (i == a.len() || (a[i] as int) < (b[i] as int))),
    decreases i,
{
    if i > 0 {
        assert(a.take(i)[0] == b.take(i)[0]);
        assert(a.drop_first().take(i - 1) =~= a.take(i).drop_first());
        assert(b.drop_first().take(i - 1) =~= b.take(i).drop_first());
        law_texts_compare_by_first_difference(a.drop_first(), b.drop_first(), i - 1);
        assert(a[0] == a.take(i)[0] && b[0] == b.take(i)[0]);
        assert(i < a.len() ==> a.drop_first()[i - 1] == a[i]);
        assert(i < b.len() ==> b.drop_first()[i - 1] == b[i]);
    }
}

/// A session lasts as many hours as it is given.
pub proof fn law_session_lasts_its_hours(now: Timestamp, hours: i64)
    requires
        sessions::expiry_representable(now, hours),
    ensures
        sessions::expiry_of(now, hours).seconds - now.seconds == hours * 3600,
        now.nanos < 1_000_000_000 ==> sessions::expiry_of(now, hours).nanos == now.nanos,
{
}

/// The first statistics of an entry stand at `i`.
pub open spec fn is_stats_of(stats: Seq<EntryStats>, entry: Id, i: int) -> bool {
    &&& 0 <= i < stats.len()
    &&& stats[i].entry_id == entry
    &&& forall|j: int| 0 <= j < i ==> (#[trigger] stats[j]).entry_id != entry
}

proof fn lemma_stats(stats: Seq<EntryStats>, entry: Id, n: nat)
    requires
        n <= stats.len(),
    ensures
        match feedback::stats_at(stats, entry, n) {
            Some(i) => 0 <= i < n && is_stats_of(stats, entry, i),
            None => forall|j: int| 0 <= j < n ==> (#[trigger] stats[j]).entry_id != entry,
        },
    decreases n,
{
    if n > 0 {
        lemma_stats(stats, entry, (n - 1) as nat);
    }
}

/// What an entry's weight rests on: its count and its last reinforcement where
/// it has statistics; none and its creation where it has not.
pub open spec fn is_basis(b: SignalBasis, e: EntryCreated, stats: Seq<EntryStats>) -> bool {
    &&& b.entry_id == e.id
    &&& forall|i: int| #[trigger]
        is_stats_of(stats, e.id, i) ==> b.reinforcement_count == stats[i].reinforcement_count
            && stats[i].last_reinforced_at.time == Some(b.last_reinforced_at)
    &&& (forall|i: int| 0 <= i < stats.len() ==> (#[trigger] stats[i]).entry_id != e.id)
        ==> b.reinforcement_count == 0 && e.created_at.time == Some(b.last_reinforced_at)
}

/// The entries that are asked for are answered, in their order, each with what
/// its weight rests on.
pub proof fn law_weights_rest_on_reinforcement(
    entries: Seq<EntryCreated>,
    stats: Seq<EntryStats>,
    ids: Seq<Id>,
    n: nat,
)
    requires
        n <= entries.len(),
    ensures
        entry_signals::bases(entries, stats, ids, n) matches Ok(out) ==> {
            let asked = entries.take(n as int).filter(|e: EntryCreated| ids.contains(e.id));
            out.len() == asked.len() && forall|k: int|
                0 <= k < out.len() ==> is_basis(#[trigger] out[k], asked[k], stats)
        },
    decreases n,
{
    let keep = |e: EntryCreated| ids.contains(e.id);
    if n == 0 {
        reveal(Seq::filter);
        assert(entries.take(0).filter(keep) =~= Seq::empty());
    } else {
        law_weights_rest_on_reinforcement(entries, stats, ids, (n - 1) as nat);
        signals::lemma_filter_take(entries, n - 1, keep);
        let e = entries[n - 1];
        lemma_stats(stats, e.id, stats.len());
        if let Ok(out) = entry_signals::bases(entries, stats, ids, n) {
            if keep(e) {
                let b = out.last();
                assert forall|i: int| #[trigger] is_stats_of(stats, e.id, i) implies
                    b.reinforcement_count == stats[i].reinforcement_count
                    && stats[i].last_reinforced_at.time == Some(b.last_reinforced_at) by {
                    let at = feedback::stats_at(stats, e.id, stats.len());
                    if at is None {
                        assert(stats[i].entry_id != e.id);
                    } else if at->0 < i {
                        assert(stats[at->0].entry_id != e.id);
                    } else if i < at->0 {
                        assert(stats[i].entry_id != e.id);
                    }
                }
                if let Some(at) = feedback::stats_at(stats, e.id, stats.len()) {
                    assert(stats[at].entry_id == e.id);
                }
            }
        }
    }
}

/// A policy is in order where each of its numbers lies in its range; 1 has the
/// pattern 0x3ff0000000000000.
pub proof fn law_policy_ranges(p: MemoryPolicy)
    ensures
        p.fault() is None ==> {
            &&& 0 < p.half_life_days < 0x7ff0_0000_0000_0000
            &&& 0 < p.decay_floor <= 0x3ff0_0000_0000_0000
            &&& 1 <= p.max_reinforcements <= 3
            &&& p.session_ttl_hours > 0
            &&& p.affinity_similarity_threshold < 0x3ff0_0000_0000_0000
                || p.affinity_similarity_threshold == 0x8000_0000_0000_0000
            &&& p.affinity_weight < 0x7ff0_0000_0000_0000 || p.affinity_weight
                == 0x8000_0000_0000_0000
            &&& p.affinity_candidate_limit > 0
            &&& p.entry_recency_weight <= 0x3ff0_0000_0000_0000 || p.entry_recency_weight
                == 0x8000_0000_0000_0000
            &&& p.entry_reinforcement_factors@.len() == p.max_reinforcements + 1
            &&& p.affinity_reinforcement_factors@.len() == p.max_reinforcements + 1
            &&& never_fall(p.entry_reinforcement_factors@)
            &&& never_fall(p.affinity_reinforcement_factors@)
        },
        ({
            &&& 0 < p.half_life_days < 0x7ff0_0000_0000_0000
            &&& 0 < p.decay_floor <= 0x3ff0_0000_0000_0000
            &&& 1 <= p.max_reinforcements <= 3
            &&& p.session_ttl_hours > 0
            &&& p.affinity_similarity_threshold < 0x3ff0_0000_0000_0000
            &&& p.affinity_weight < 0x7ff0_0000_0000_0000
            &&& p.affinity_candidate_limit > 0
            &&& p.entry_recency_weight <= 0x3ff0_0000_0000_0000
            &&& p.entry_reinforcement_factors@.len() == p.max_reinforcements + 1
            &&& p.affinity_reinforcement_factors@.len() == p.max_reinforcements + 1
            &&& never_fall(p.entry_reinforcement_factors@)
            &&& never_fall(p.affinity_reinforcement_factors@)
        }) ==> p.fault() is None,
{
    assert forall|s: Seq<F64Bits>| #[trigger] never_fall(s) implies crate::memory_model::good_factors(s) by {
        assert forall|i: int| 0 <= i < s.len() implies float_bits::finite(#[trigger] s[i])
            && float_bits::position(s[i]) >= 0 by {}
        assert forall|i: int, j: int| 0 <= i <= j < s.len() implies float_bits::position(
            #[trigger] s[i],
        ) <= float_bits::position(#[trigger] s[j]) by {
            if i < j {
                assert(!is_below(s[j], s[i]));
            }
        }
    }
    assert forall|s: Seq<F64Bits>| crate::memory_model::good_factors(s) implies #[trigger] never_fall(s) by {
        assert forall|i: int| 0 <= i < s.len() implies (#[trigger] s[i] < 0x7ff0_0000_0000_0000
            || s[i] == 0x8000_0000_0000_0000) by {
            assert(float_bits::finite(s[i]) && float_bits::position(s[i]) >= 0);
        }
        assert forall|i: int, j: int| 0 <= i < j < s.len() implies !is_below(
            #[trigger] s[j],
            #[trigger] s[i],
        ) by {
            assert(float_bits::position(s[i]) <= float_bits::position(s[j]));
        }
    }
}

/// Finite numbers from zero on, none below the one before it.
pub open spec fn never_fall(s: Seq<F64Bits>) -> bool {
    &&& forall|i: int|
        0 <= i < s.len() ==> #[trigger] s[i] < 0x7ff0_0000_0000_0000 || s[i]
            == 0x8000_0000_0000_0000
    &&& forall|i: int, j: int|
        0 <= i < j < s.len() ==> !is_below(#[trigger] s[j], #[trigger] s[i])
}

/// The reinforcement that counts is the count itself, but never more than the
/// policy allows.
pub proof fn law_reinforcement_is_capped(p: MemoryPolicy, count: u8)
    ensures
        p.capped(count) <= count,
        p.capped(count) <= p.max_reinforcements,
        p.capped(count) == count || p.capped(count) == p.max_reinforcements,
{
}

/// Content is short-lived where its attribute `transient` is the text or the
/// value `true` or the number 1, and not otherwise; other attributes do not
/// matter, and what is no object is not short-lived.
pub proof fn law_short_lived_marks(m: Members, key: Seq<char>, v: AttrSpec)
    ensures
        visibility::is_transient(
            AttrsSpec::Object(attrs::with_member(m, "transient"@, v)),
        ) <==> (v == AttrSpec::Text("true"@) || v == AttrSpec::Json("true"@) || v
            == AttrSpec::Json("1"@) || v == AttrSpec::Json("1.0"@)),
        key != "transient"@ ==> visibility::is_transient(
            AttrsSpec::Object(attrs::with_member(m, key, v)),
        ) == visibility::is_transient(AttrsSpec::Object(m)),
        !visibility::is_transient(AttrsSpec::Object(Seq::empty())),
{
    let name = "transient"@;
    lemma_set(m, name, v, name);
    lemma_transient(attrs::with_member(m, name, v));
    lemma_transient(m);
    lemma_set(m, key, v, name);
    lemma_transient(attrs::with_member(m, key, v));
    assert(!attrs::has_key(Seq::empty(), name));
    lemma_transient(Seq::empty());
}

/// The value says so.
spec fn says_so(v: Option<AttrSpec>) -> bool {
    v == Some(AttrSpec::Text("true"@)) || v == Some(AttrSpec::Json("true"@)) || v == Some(
        AttrSpec::Json("1"@),
    ) || v == Some(AttrSpec::Json("1.0"@))
}

proof fn lemma_transient(m: Members)
    ensures
        visibility::is_transient(AttrsSpec::Object(m)) == says_so(
            attrs::value_of(m, "transient"@),
        ),
{
    reveal(visibility::is_transient);
}

/// The value is there and is not null.
spec fn is_named(v: Option<AttrSpec>) -> bool {
    v is Some && v->0 != AttrSpec::Json("null"@)
}

proof fn lemma_benchmark(m: Members)
    ensures
        visibility::is_benchmark(AttrsSpec::Object(m)) == (is_named(
            attrs::value_of(m, "benchmark_run_id"@),
        ) && is_named(attrs::value_of(m, "benchmark_case_id"@))),
{
    reveal(visibility::is_benchmark);
}

/// Content is a benchmark fixture where it names a run and a case, neither of
/// them null; other attributes do not matter.
pub proof fn law_fixture_marks(m: Members, run: AttrSpec, case: AttrSpec, key: Seq<char>, v: AttrSpec)
    ensures
        ({
            let marked = attrs::with_member(
                attrs::with_member(m, "benchmark_run_id"@, run),
                "benchmark_case_id"@,
                case,
            );
            visibility::is_benchmark(AttrsSpec::Object(marked)) <==> run != AttrSpec::Json("null"@)
                && case != AttrSpec::Json("null"@)
        }),
        attrs::value_of(m, "benchmark_run_id"@) is None || attrs::value_of(
            m,
            "benchmark_case_id"@,
        ) is None ==> !visibility::is_benchmark(AttrsSpec::Object(m)),
        key != "benchmark_run_id"@ && key != "benchmark_case_id"@ ==> visibility::is_benchmark(
            AttrsSpec::Object(attrs::with_member(m, key, v)),
        ) == visibility::is_benchmark(AttrsSpec::Object(m)),
{
    reveal(set_to);
    lemma_marked(m, run, case);
    lemma_benchmark(m);
    if key != "benchmark_run_id"@ && key != "benchmark_case_id"@ {
        lemma_other_member(m, key, v);
    }
}

/// What setting a member does to two others.
proof fn lemma_set(m: Members, key: Seq<char>, v: AttrSpec, other: Seq<char>)
    ensures
        attrs::value_of(attrs::with_member(m, key, v), key) == Some(v),
        other != key ==> attrs::value_of(attrs::with_member(m, key, v), other) == attrs::value_of(
            m,
            other,
        ),
{
    attrs::law_set_then_get(m, key, v);
}

/// Members with one more set.
#[verifier::opaque]
spec fn set_to(m: Members, key: Seq<char>, v: AttrSpec) -> Members {
    attrs::with_member(m, key, v)
}

/// What a key is set to.
#[verifier::opaque]
spec fn got(m: Members, key: Seq<char>) -> Option<AttrSpec> {
    attrs::value_of(m, key)
}

proof fn lemma_set_to(m: Members, key: Seq<char>, v: AttrSpec, other: Seq<char>)
    ensures
        got(set_to(m, key, v), key) == Some(v),
        other != key ==> got(set_to(m, key, v), other) == got(m, other),
{
    reveal(set_to);
    reveal(got);
    lemma_set(m, key, v, other);
}

proof fn lemma_got(m: Members)
    ensures
        visibility::is_benchmark(AttrsSpec::Object(m)) == (is_named(got(m, "benchmark_run_id"@))
            && is_named(got(m, "benchmark_case_id"@))),
{
    reveal(got);
    lemma_benchmark(m);
}

proof fn lemma_marked(m: Members, run: AttrSpec, case: AttrSpec)
    ensures
        visibility::is_benchmark(
            AttrsSpec::Object(
                set_to(set_to(m, "benchmark_run_id"@, run), "benchmark_case_id"@, case),
            ),
        ) <==> run != AttrSpec::Json("null"@) && case != AttrSpec::Json("null"@),
{
    let (r, c) = ("benchmark_run_id"@, "benchmark_case_id"@);
    assert(r != c) by {
        reveal_strlit("benchmark_run_id");
        reveal_strlit("benchmark_case_id");
        assert(r.len() != c.len());
    }
    let half = set_to(m, r, run);
    lemma_set_to(m, r, run, c);
    lemma_set_to(half, c, case, r);
    lemma_got(set_to(half, c, case));
}

proof fn lemma_other_member(m: Members, key: Seq<char>, v: AttrSpec)
    requires
        key != "benchmark_run_id"@,
        key != "benchmark_case_id"@,
    ensures
        visibility::is_benchmark(AttrsSpec::Object(set_to(m, key, v)))
            == visibility::is_benchmark(AttrsSpec::Object(m)),
{
    lemma_set_to(m, key, v, "benchmark_run_id"@);
    lemma_set_to(m, key, v, "benchmark_case_id"@);
    lemma_got(set_to(m, key, v));
    lemma_got(m);
}

} // verus!
