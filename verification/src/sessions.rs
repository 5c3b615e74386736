//! Remembered searches: how they are recorded, and how they expire.
use vstd::prelude::*;
use vstd::string::*;

use crate::affinity_merge::{AffinityStore, StoreSpec};
use crate::error::{CoreError, CoreFault};
use crate::float_bits;
use crate::ids::Id;
use crate::memory_model::{CreateSearchSession, SearchResultTarget};
use crate::signals::{self, EntryStats, Moment, Receipt, Session, SessionResult};
use crate::text;
use crate::time::Timestamp;

verus! {

/// How many expired sessions one operation sweeps away at most.
pub const SWEEP: u64 = 100;

/// Everything that adaptive memory remembers.
#[derive(Debug, Clone)]
pub struct Signals {
    pub sessions: Vec<Session>,
    pub results: Vec<SessionResult>,
    pub receipts: Vec<Receipt>,
    pub stats: Vec<EntryStats>,
    pub store: AffinityStore,
}

/// What adaptive memory remembers, as mathematics.
#[verifier::ext_equal]
pub struct SignalsSpec {
    pub sessions: Seq<Session>,
    pub results: Seq<SessionResult>,
    pub receipts: Seq<Receipt>,
    pub stats: Seq<EntryStats>,
    pub store: StoreSpec,
}

impl View for Signals {
    type V = SignalsSpec;

    open spec fn view(&self) -> SignalsSpec {
        SignalsSpec {
            sessions: self.sessions@,
            results: self.results@,
            receipts: self.receipts@,
            stats: self.stats@,
            store: self.store@,
        }
    }
}

/// The session has run out at `now`, and is not the one to spare.
pub open spec fn expired(s: Session, now: Seq<char>, spared: Option<Id>) -> bool {
    !text::precedes(now, s.expires_at.text@) && spared != Some(s.id)
}

/// `a` runs out before `b`; of two that run out together, the one that was
/// created first, and then the one with the smaller identifier.
pub open spec fn older(a: Session, b: Session) -> bool {
    let (ae, be) = (a.expires_at.text@, b.expires_at.text@);
    let (ac, bc) = (a.created_at.text@, b.created_at.text@);
    text::precedes(ae, be) || (ae == be && (text::precedes(ac, bc) || (ac == bc && a.id < b.id)))
}

/// The oldest expired session among the first `n`.
pub open spec fn oldest_expired(
    sessions: Seq<Session>,
    now: Seq<char>,
    spared: Option<Id>,
    n: nat,
) -> Option<int>
    decreases n,
{
    if n == 0 {
        None
    } else {
        let here = sessions[n - 1];
        match oldest_expired(sessions, now, spared, (n - 1) as nat) {
            None => if expired(here, now, spared) {
                Some(n - 1)
            } else {
                None
            },
            Some(i) => if expired(here, now, spared) && older(here, sessions[i]) {
                Some(n - 1)
            } else {
                Some(i)
            },
        }
    }
}

/// The sessions, and the results that sessions have.
#[verifier::ext_equal]
pub struct Swept {
    pub sessions: Seq<Session>,
    pub results: Seq<SessionResult>,
    pub count: nat,
}

/// Up to `limit` expired sessions are removed, the oldest first, and their
/// results with them.
pub open spec fn sweep(
    sessions: Seq<Session>,
    results: Seq<SessionResult>,
    now: Seq<char>,
    spared: Option<Id>,
    limit: nat,
) -> Swept
    decreases limit,
{
    if limit == 0 {
        Swept { sessions, results, count: 0 }
    } else {
        match oldest_expired(sessions, now, spared, sessions.len()) {
            None => Swept { sessions, results, count: 0 },
            Some(i) => {
                let id = sessions[i].id;
                let rest = sweep(
                    sessions.remove(i),
                    results.filter(|r: SessionResult| r.search_id != id),
                    now,
                    spared,
                    (limit - 1) as nat,
                );
                Swept { count: rest.count + 1, ..rest }
            },
        }
    }
}

/// The state after a sweep.
pub open spec fn swept(sig: SignalsSpec, now: Seq<char>, spared: Option<Id>, limit: nat) -> SignalsSpec {
    let s = sweep(sig.sessions, sig.results, now, spared, limit);
    SignalsSpec { sessions: s.sessions, results: s.results, ..sig }
}

fn is_expired(s: &Session, now: &str, spared: Option<Id>) -> (r: bool)
    ensures
        r == expired(*s, now@, spared),
{
    if text::is_before(now, s.expires_at.text.as_str()) {
        return false;
    }
    match spared {
        Some(id) => id != s.id,
        None => true,
    }
}

fn is_older(a: &Session, b: &Session) -> (r: bool)
    ensures
        r == older(*a, *b),
{
    let (ae, be) = (a.expires_at.text.as_str(), b.expires_at.text.as_str());
    let (ac, bc) = (a.created_at.text.as_str(), b.created_at.text.as_str());
    text::is_before(ae, be) || (text::same(ae, be) && (text::is_before(ac, bc) || (text::same(
        ac,
        bc,
    ) && a.id < b.id)))
}

fn find_oldest(sessions: &Vec<Session>, now: &str, spared: Option<Id>) -> (r: Option<usize>)
    ensures
        match r {
            Some(i) => i < sessions.len() && oldest_expired(
                sessions@,
                now@,
                spared,
                sessions@.len(),
            ) == Some(i as int),
            None => oldest_expired(sessions@, now@, spared, sessions@.len()) is None,
        },
{
    let mut found: Option<usize> = None;
    let mut k: usize = 0;
    while k < sessions.len()
        invariant
            k <= sessions.len(),
            match found {
                Some(i) => i < k && oldest_expired(sessions@, now@, spared, k as nat) == Some(
                    i as int,
                ),
                None => oldest_expired(sessions@, now@, spared, k as nat) is None,
            },
        decreases sessions.len() - k,
    {
        if is_expired(&sessions[k], now, spared) {
            match found {
                None => {
                    found = Some(k);
                },
                Some(i) => {
                    if is_older(&sessions[k], &sessions[i]) {
                        found = Some(k);
                    }
                },
            }
        }
        k += 1;
    }
    found
}

/// The results of other searches.
pub fn results_without(results: &Vec<SessionResult>, id: Id) -> (kept: Vec<SessionResult>)
    ensures
        kept@ == results@.filter(|r: SessionResult| r.search_id != id),
{
    let ghost keep = |r: SessionResult| r.search_id != id;
    let mut kept: Vec<SessionResult> = Vec::new();
    let mut i: usize = 0;
    proof {
        assert(results@.take(0).filter(keep) =~= Seq::empty()) by {
            reveal(Seq::filter);
        }
    }
    while i < results.len()
        invariant
            i <= results.len(),
            keep == (|r: SessionResult| r.search_id != id),
            kept@ == results@.take(i as int).filter(keep),
        decreases results.len() - i,
    {
        proof {
            signals::lemma_filter_take(results@, i as int, keep);
        }
        if results[i].search_id != id {
            kept.push(results[i]);
        }
        i += 1;
    }
    proof {
        assert(results@.take(i as int) =~= results@);
    }
    kept
}

/// Delete up to `limit` expired search sessions, oldest first, but never the
/// one to spare. Accepted feedback and what was learned stay.
pub fn purge_expired_sessions(
    sig: Signals,
    now: &str,
    limit: u64,
    spared: Option<Id>,
) -> (r: (Signals, u64))
    ensures
        r.0@ == swept(sig@, now@, spared, limit as nat),
        r.1 == sweep(sig@.sessions, sig@.results, now@, spared, limit as nat).count,
        r.1 <= limit,
{
    let ghost start = sig@;
    let mut state = sig;
    let mut left: u64 = limit;
    let mut count: u64 = 0;
    while left > 0
        invariant
            count + left == limit,
            start == sig@,
            state@.receipts == start.receipts,
            state@.stats == start.stats,
            state@.store == start.store,
            ({
                let rest = sweep(state@.sessions, state@.results, now@, spared, left as nat);
                let all = sweep(start.sessions, start.results, now@, spared, limit as nat);
                all == (Swept { count: rest.count + count as nat, ..rest })
            }),
        decreases left,
    {
        match find_oldest(&state.sessions, now, spared) {
            None => {
                proof {
                    assert(state@ =~= swept(start, now@, spared, limit as nat));
                }
                return (state, count);
            },
            Some(i) => {
                let id = state.sessions[i].id;
                let _ = state.sessions.remove(i);
                state.results = results_without(&state.results, id);
                left -= 1;
                count += 1;
            },
        }
    }
    proof {
        assert(state@ =~= swept(start, now@, spared, limit as nat));
    }
    (state, count)
}

/// When a session that begins at `now` runs out. One that begins within a leap
/// second counts from the second before it.
pub open spec fn expiry_of(now: Timestamp, ttl_hours: i64) -> Timestamp {
    Timestamp {
        seconds: (now.seconds + 3600 * ttl_hours) as i64,
        nanos: now.nanos % 1_000_000_000,
    }
}

/// The session can run out within the calendar.
pub open spec fn expiry_representable(now: Timestamp, ttl_hours: i64) -> bool {
    &&& now.valid()
    &&& 0 < ttl_hours
    &&& now.seconds + 3600 * ttl_hours <= 8210266876799
}

/// When a session that begins at `now` runs out.
pub fn session_expiry(now: Timestamp, ttl_hours: i64) -> (t: Timestamp)
    requires
        expiry_representable(now, ttl_hours),
    ensures
        t == expiry_of(now, ttl_hours),
        t.valid(),
{
    let seconds: i64 = now.seconds + 3600 * ttl_hours;
    Timestamp { seconds, nanos: now.nanos % 1_000_000_000 }
}

/// No entry stands twice among the first `n` results.
pub open spec fn distinct_entries(results: Seq<SearchResultTarget>, n: nat) -> bool {
    forall|i: int, j: int|
        0 <= i < j < n ==> (#[trigger] results[i]).entry_id != (#[trigger] results[j]).entry_id
}

/// The results as a session records them.
pub open spec fn recorded(search_id: Id, results: Seq<SearchResultTarget>) -> Seq<SessionResult> {
    results.map_values(|target: SearchResultTarget| SessionResult { search_id, target })
}

/// The session that a search leaves.
pub open spec fn is_session_of(
    s: Session,
    id: Id,
    input: CreateSearchSession,
    now: Moment,
    expires: Moment,
) -> bool {
    &&& s.id == id
    &&& s.raw_query_text == input.raw_query_text
    &&& s.effective_query_text == input.effective_query_text
    &&& s.query_embedding@ == float_bits::vector_bytes(input.query_embedding@)
    &&& s.embedding_model == input.embedding_model
    &&& s.embedding_dim == input.query_embedding@.len() as i64
    &&& s.created_at == now
    &&& s.expires_at == expires
}

/// Whether no entry stands twice.
fn are_distinct(results: &Vec<SearchResultTarget>) -> (r: bool)
    ensures
        r == distinct_entries(results@, results@.len()),
{
    let mut i: usize = 0;
    while i < results.len()
        invariant
            i <= results.len(),
            distinct_entries(results@, i as nat),
        decreases results.len() - i,
    {
        let mut k: usize = 0;
        while k < i
            invariant
                k <= i < results.len(),
                forall|j: int| 0 <= j < k ==> (#[trigger] results@[j]).entry_id
                    != results@[i as int].entry_id,
            decreases i - k,
        {
            if results[k].entry_id == results[i].entry_id {
                proof {
                    assert(results@[k as int].entry_id == results@[i as int].entry_id);
                }
                return false;
            }
            k += 1;
        }
        i += 1;
    }
    true
}

/// Record a search under `search_id`, from `now` until `expires`. Expired
/// sessions are swept away first. A search cannot record one entry twice.
pub fn create_search_session(
    sig: Signals,
    input: CreateSearchSession,
    search_id: Id,
    now: Moment,
    expires: Moment,
) -> (r: Result<Signals, CoreError>)
    ensures
        match r {
            Ok(after) => {
                let before = swept(sig@, now.text@, None, SWEEP as nat);
                &&& input.query_embedding@.len() > 0
                &&& distinct_entries(input.results@, input.results@.len())
                &&& after@.sessions.len() == before.sessions.len() + 1
                &&& after@.sessions.drop_last() == before.sessions
                &&& is_session_of(after@.sessions.last(), search_id, input, now, expires)
                &&& after@.results == before.results + recorded(search_id, input.results@)
                &&& after@.receipts == before.receipts
                &&& after@.stats == before.stats
                &&& after@.store == before.store
            },
            Err(e) => if input.query_embedding@.len() == 0 {
                e@ == CoreFault::Validation("query embedding must be non-empty"@)
            } else {
                &&& !distinct_entries(input.results@, input.results@.len())
                &&& e@ == CoreFault::Storage("a search session cannot record an entry twice"@)
            },
        },
{
    if input.query_embedding.len() == 0 {
        return Err(CoreError::validation("query embedding must be non-empty"));
    }
    if !are_distinct(&input.results) {
        return Err(
            CoreError::Storage("a search session cannot record an entry twice".to_owned()),
        );
    }
    let (mut state, _) = purge_expired_sessions(sig, now.text.as_str(), SWEEP, None);
    let ghost before = state@;
    let embedding = float_bits::encode_vector(&input.query_embedding);
    let ghost all = recorded(search_id, input.results@);
    let mut i: usize = 0;
    proof {
        assert(before.results + all.take(0) =~= before.results);
    }
    while i < input.results.len()
        invariant
            i <= input.results.len(),
            all == recorded(search_id, input.results@),
            state@.results == before.results + all.take(i as int),
            state@.sessions == before.sessions,
            state@.receipts == before.receipts,
            state@.stats == before.stats,
            state@.store == before.store,
        decreases input.results.len() - i,
    {
        let ghost held = state.results@;
        state.results.push(SessionResult { search_id, target: input.results[i] });
        proof {
            assert(before.results + all.take(i + 1) =~= held.push(all[i as int]));
        }
        i += 1;
    }
    proof {
        assert(all.take(i as int) =~= all);
    }
    let dim = input.query_embedding.len() as i64;
    let session = Session {
        id: search_id,
        raw_query_text: input.raw_query_text,
        effective_query_text: input.effective_query_text,
        query_embedding: embedding,
        embedding_model: input.embedding_model,
        embedding_dim: dim,
        created_at: now,
        expires_at: expires,
    };
    state.sessions.push(session);
    proof {
        assert(state@.sessions.drop_last() =~= before.sessions);
    }
    Ok(state)
}

pub proof fn lemma_oldest(sessions: Seq<Session>, now: Seq<char>, spared: Option<Id>, n: nat)
    requires
        n <= sessions.len(),
    ensures
        match oldest_expired(sessions, now, spared, n) {
            Some(i) => 0 <= i < n && expired(sessions[i], now, spared) && forall|j: int|
                0 <= j < n && expired(#[trigger] sessions[j], now, spared) ==> !older(
                    sessions[j],
                    sessions[i],
                ),
            None => forall|j: int| 0 <= j < n ==> !expired(#[trigger] sessions[j], now, spared),
        },
    decreases n,
{
    if n > 0 {
        lemma_oldest(sessions, now, spared, (n - 1) as nat);
        let here = sessions[n - 1];
        text::law_text_order_is_total(here.expires_at.text@, here.expires_at.text@);
        text::law_text_order_is_total(here.created_at.text@, here.created_at.text@);
        if let Some(i) = oldest_expired(sessions, now, spared, (n - 1) as nat) {
            if expired(here, now, spared) && older(here, sessions[i]) {
                assert forall|j: int| 0 <= j < n && expired(
                    #[trigger] sessions[j],
                    now,
                    spared,
                ) implies !older(sessions[j], here) by {
                    if j < n - 1 && older(sessions[j], here) {
                        lemma_older_transitive(sessions[j], here, sessions[i]);
                    }
                }
            }
        }
    }
}

pub proof fn lemma_precedes_transitive(a: Seq<char>, b: Seq<char>, c: Seq<char>)
    requires
        text::precedes(a, b),
        text::precedes(b, c),
    ensures
        text::precedes(a, c),
    decreases a.len(),
{
    if a.len() > 0 && a[0] == b[0] && b[0] == c[0] {
        lemma_precedes_transitive(a.drop_first(), b.drop_first(), c.drop_first());
    }
}

proof fn lemma_older_transitive(a: Session, b: Session, c: Session)
    requires
        older(a, b),
        older(b, c),
    ensures
        older(a, c),
{
    let (ae, be, ce) = (a.expires_at.text@, b.expires_at.text@, c.expires_at.text@);
    let (ac, bc, cc) = (a.created_at.text@, b.created_at.text@, c.created_at.text@);
    if text::precedes(ae, be) && text::precedes(be, ce) {
        lemma_precedes_transitive(ae, be, ce);
    }
    if text::precedes(ac, bc) && text::precedes(bc, cc) {
        lemma_precedes_transitive(ac, bc, cc);
    }
}

/// A sweep removes at most `limit` sessions; it stops short only where no
/// expired session is left; it keeps every session that has not expired and
/// the one to spare; and whatever it removed was no younger than any expired
/// session that it left.
pub proof fn law_sweep_is_bounded_and_oldest_first(
    sessions: Seq<Session>,
    results: Seq<SessionResult>,
    now: Seq<char>,
    spared: Option<Id>,
    limit: nat,
)
    ensures
        ({
            let after = sweep(sessions, results, now, spared, limit);
            &&& after.count <= limit
            &&& after.sessions.len() + after.count == sessions.len()
            &&& after.count < limit ==> forall|i: int|
                0 <= i < after.sessions.len() ==> !expired(
                    #[trigger] after.sessions[i],
                    now,
                    spared,
                )
            &&& forall|s: Session| #[trigger] after.sessions.contains(s) ==> sessions.contains(s)
            &&& forall|s: Session|
                #[trigger] sessions.contains(s) && !after.sessions.contains(s) ==> expired(
                    s,
                    now,
                    spared,
                )
            &&& forall|s: Session, t: Session|
                #[trigger] sessions.contains(s) && !after.sessions.contains(s)
                    && #[trigger] after.sessions.contains(t) && expired(t, now, spared) ==> !older(t, s)
        }),
    decreases limit,
{
    let after = sweep(sessions, results, now, spared, limit);
    if limit > 0 {
        lemma_oldest(sessions, now, spared, sessions.len());
        if let Some(i) = oldest_expired(sessions, now, spared, sessions.len()) {
            let id = sessions[i].id;
            let rest = sessions.remove(i);
            law_sweep_is_bounded_and_oldest_first(
                rest,
                results.filter(|r: SessionResult| r.search_id != id),
                now,
                spared,
                (limit - 1) as nat,
            );
            assert forall|s: Session| #[trigger] rest.contains(s) implies sessions.contains(s) by {
                let k = choose|k: int| 0 <= k < rest.len() && rest[k] == s;
                if k < i {
                    assert(sessions[k] == s);
                } else {
                    assert(sessions[k + 1] == s);
                }
            }
            assert forall|s: Session| #[trigger] sessions.contains(s) && s != sessions[i] implies rest.contains(
                s,
            ) by {
                let k = choose|k: int| 0 <= k < sessions.len() && sessions[k] == s;
                if k < i {
                    assert(rest[k] == s);
                } else {
                    assert(rest[k - 1] == s);
                }
            }
            assert forall|s: Session|
                #[trigger] sessions.contains(s) && !after.sessions.contains(s) implies expired(
                s,
                now,
                spared,
            ) by {
                if s != sessions[i] {
                    assert(rest.contains(s));
                }
            }
            assert forall|s: Session, t: Session|
                #[trigger] sessions.contains(s) && !after.sessions.contains(s)
                    && #[trigger] after.sessions.contains(t) && expired(t, now, spared) implies !older(
                t,
                s,
            ) by {
                assert(rest.contains(t));
                assert(sessions.contains(t));
                if s == sessions[i] {
                    let k = choose|k: int| 0 <= k < sessions.len() && sessions[k] == t;
                    assert(expired(sessions[k], now, spared));
                } else {
                    assert(rest.contains(s));
                }
            }
        }
    }
}

} // verus!
