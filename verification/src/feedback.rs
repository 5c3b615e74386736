//! Positive feedback on search results.
//!
//! Feedback for an entry counts once for a search: the first acceptance leaves
//! a receipt, and a repetition finds it. The session and every target are
//! validated before anything is written, so one bad target leaves everything
//! as it was.
use vstd::prelude::*;
use vstd::string::*;

use crate::affinity_merge::{self, AffinityStore, StoreSpec};
use crate::error::{CoreError, CoreFault};
use crate::hashing;
use crate::ids::{self, Id};
use crate::memory_model::{AppliedFeedback, FeedbackResult, FeedbackTarget};
use crate::sessions::{self, Signals, SignalsSpec};
use crate::signals::{
    self, Affinity, AffinityVector, ContentIndex, EntryStats, Moment, Receipt, Session,
    SessionResult,
};
use crate::text;
use crate::time::Timestamp;

verus! {

/// The result that a search recorded for an entry, among the first `n`.
pub open spec fn recorded_for(
    results: Seq<SessionResult>,
    search_id: Id,
    entry: Id,
    n: nat,
) -> Option<int>
    decreases n,
{
    if n == 0 {
        None
    } else {
        match recorded_for(results, search_id, entry, (n - 1) as nat) {
            Some(i) => Some(i),
            None => if results[n - 1].search_id == search_id && results[n - 1].target.entry_id
                == entry {
                Some(n - 1)
            } else {
                None
            },
        }
    }
}

/// A target whose block is the one that its chunk stands in, or why it is
/// refused. It must be what the search returned for the entry, the entry must
/// exist, and block and chunk must still belong to it.
pub open spec fn validated(
    results: Seq<SessionResult>,
    index: ContentIndex,
    search_id: Id,
    target: FeedbackTarget,
) -> Result<FeedbackTarget, CoreFault> {
    let id = ids::text_of_id(target.entry_id);
    match recorded_for(results, search_id, target.entry_id, results.len()) {
        None => Err(CoreFault::Validation("entry was not returned by search session: "@ + id)),
        Some(i) => {
            let row = results[i].target;
            if !index.has_entry(target.entry_id) {
                Err(CoreFault::ResourceNotFound { resource: "entry"@, id: target.entry_id })
            } else if target.block_id is Some && row.matched_block_id != target.block_id {
                Err(
                    CoreFault::Validation("feedback block does not match search result: "@ + id),
                )
            } else if target.block_id is Some && !index.owns_block(
                target.entry_id,
                target.block_id->0,
            ) {
                Err(CoreFault::Validation("feedback block does not belong to entry: "@ + id))
            } else {
                match target.chunk_id {
                    None => Ok(target),
                    Some(chunk) => if row.matched_chunk_id != target.chunk_id {
                        Err(
                            CoreFault::Validation(
                                "feedback chunk does not match search result: "@ + id,
                            ),
                        )
                    } else {
                        match index.chunk_parent(target.entry_id, chunk) {
                            None => Err(
                                CoreFault::Validation(
                                    "feedback chunk does not belong to entry block: "@ + id,
                                ),
                            ),
                            Some(parent) => if target.block_id is Some && target.block_id != Some(
                                parent,
                            ) {
                                Err(
                                    CoreFault::Validation(
                                        "feedback chunk does not belong to matching block: "@ + id,
                                    ),
                                )
                            } else {
                                Ok(FeedbackTarget { block_id: Some(parent), ..target })
                            },
                        }
                    },
                }
            }
        },
    }
}

fn find_recorded(results: &Vec<SessionResult>, search_id: Id, entry: Id) -> (r: Option<usize>)
    ensures
        match r {
            Some(i) => i < results.len() && recorded_for(results@, search_id, entry, results@.len())
                == Some(i as int),
            None => recorded_for(results@, search_id, entry, results@.len()) is None,
        },
{
    let mut found: Option<usize> = None;
    let mut k: usize = 0;
    while k < results.len()
        invariant
            k <= results.len(),
            match found {
                Some(i) => i < k && recorded_for(results@, search_id, entry, k as nat) == Some(
                    i as int,
                ),
                None => recorded_for(results@, search_id, entry, k as nat) is None,
            },
        decreases results.len() - k,
    {
        if found.is_none() && results[k].search_id == search_id && results[k].target.entry_id
            == entry {
            found = Some(k);
        }
        k += 1;
    }
    found
}

/// Check one target against what the search returned and what exists now.
pub fn validate_feedback_target(
    results: &Vec<SessionResult>,
    index: &ContentIndex,
    search_id: Id,
    target: &FeedbackTarget,
) -> (r: Result<FeedbackTarget, CoreError>)
    ensures
        match r {
            Ok(t) => validated(results@, *index, search_id, *target) == Ok::<
                FeedbackTarget,
                CoreFault,
            >(t),
            Err(e) => validated(results@, *index, search_id, *target) == Err::<
                FeedbackTarget,
                CoreFault,
            >(e@),
        },
{
    let entry = target.entry_id;
    let row = match find_recorded(results, search_id, entry) {
        Some(i) => results[i].target,
        None => {
            return Err(
                CoreError::validation_of("entry was not returned by search session: ", entry),
            );
        },
    };
    if !index.is_entry(entry) {
        return Err(CoreError::ResourceNotFound { resource: "entry", id: entry });
    }
    if let Some(block) = target.block_id {
        if !signals::same_id(row.matched_block_id, target.block_id) {
            return Err(
                CoreError::validation_of("feedback block does not match search result: ", entry),
            );
        }
        if !index.is_block_of(entry, block) {
            return Err(
                CoreError::validation_of("feedback block does not belong to entry: ", entry),
            );
        }
    }
    let chunk = match target.chunk_id {
        None => {
            return Ok(*target);
        },
        Some(chunk) => chunk,
    };
    if !signals::same_id(row.matched_chunk_id, target.chunk_id) {
        return Err(
            CoreError::validation_of("feedback chunk does not match search result: ", entry),
        );
    }
    match index.parent_of_chunk(entry, chunk) {
        None => Err(
            CoreError::validation_of("feedback chunk does not belong to entry block: ", entry),
        ),
        Some(parent) => {
            if target.block_id.is_some() && !signals::same_id(target.block_id, Some(parent)) {
                return Err(
                    CoreError::validation_of(
                        "feedback chunk does not belong to matching block: ",
                        entry,
                    ),
                );
            }
            Ok(FeedbackTarget { entry_id: entry, block_id: Some(parent), chunk_id: target.chunk_id })
        },
    }
}

/// The session with an identifier, among the first `n`.
pub open spec fn session_at(sessions: Seq<Session>, id: Id, n: nat) -> Option<int>
    decreases n,
{
    if n == 0 {
        None
    } else {
        match session_at(sessions, id, (n - 1) as nat) {
            Some(i) => Some(i),
            None => if sessions[n - 1].id == id {
                Some(n - 1)
            } else {
                None
            },
        }
    }
}

/// The first entry that stands a second time among the first `n` targets.
pub open spec fn repeated(targets: Seq<FeedbackTarget>, n: nat) -> Option<Id>
    decreases n,
{
    if n == 0 {
        None
    } else {
        match repeated(targets, (n - 1) as nat) {
            Some(id) => Some(id),
            None => if exists|j: int|
                0 <= j < n - 1 && (#[trigger] targets[j]).entry_id == targets[n - 1].entry_id {
                Some(targets[n - 1].entry_id)
            } else {
                None
            },
        }
    }
}

/// The model and dimension that are active, where a caller insists on them.
#[derive(Debug, Clone)]
pub struct ActiveEmbedding {
    pub model: String,
    pub dim: usize,
}

/// The session was made with another model or dimension.
pub open spec fn mismatched(session: Session, active: Option<ActiveEmbedding>) -> bool {
    active matches Some(a) && (session.embedding_model@ != a.model@ || session.embedding_dim
        != a.dim)
}

/// What is said about such a session.
pub open spec fn mismatch_text(session: Session, active: ActiveEmbedding) -> Seq<char> {
    "search session embedding model/dimension mismatch: session "@ + session.embedding_model@
        + ":"@ + text::signed_decimal(session.embedding_dim as int) + ", active "@ + active.model@
        + ":"@ + text::decimal(active.dim as nat) + "; run search.hybrid again"@
}

/// Why feedback on a session is refused before any target is looked at.
pub open spec fn refusal(
    sessions: Seq<Session>,
    search_id: Id,
    targets: Seq<FeedbackTarget>,
    active: Option<ActiveEmbedding>,
    now: Timestamp,
) -> Option<CoreFault> {
    match session_at(sessions, search_id, sessions.len()) {
        None => Some(
            CoreFault::ResourceNotFound { resource: "search session"@, id: search_id },
        ),
        Some(i) => {
            let session = sessions[i];
            match session.expires_at.time {
                None => Some(affinity_merge::time_fault(session.expires_at.text@)),
                Some(expires) => if !now.before(expires) {
                    Some(CoreFault::Conflict("search session expired"@))
                } else if targets.len() == 0 {
                    Some(CoreFault::Validation("feedback targets must not be empty"@))
                } else if repeated(targets, targets.len()) is Some {
                    Some(
                        CoreFault::Validation(
                            "duplicate feedback target: "@ + ids::text_of_id(
                                repeated(targets, targets.len())->0,
                            ),
                        ),
                    )
                } else if mismatched(session, active) {
                    Some(CoreFault::Conflict(mismatch_text(session, active->0)))
                } else {
                    None
                },
            }
        },
    }
}

/// A receipt for the entry exists.
pub open spec fn has_receipt(receipts: Seq<Receipt>, search_id: Id, entry: Id) -> bool {
    exists|i: int|
        0 <= i < receipts.len() && (#[trigger] receipts[i]).search_id == search_id
            && receipts[i].entry_id == entry
}

/// The targets that had been applied before, and those to apply now.
#[verifier::ext_equal]
pub struct Sorted {
    pub already: Seq<Id>,
    pub accepted: Seq<FeedbackTarget>,
}

/// The first `n` targets sorted. A target with a receipt is not validated
/// again, so a repetition succeeds after its content has changed.
pub open spec fn sorted(
    sig: SignalsSpec,
    index: ContentIndex,
    search_id: Id,
    targets: Seq<FeedbackTarget>,
    n: nat,
) -> Result<Sorted, CoreFault>
    decreases n,
{
    if n == 0 {
        Ok(Sorted { already: Seq::empty(), accepted: Seq::empty() })
    } else {
        match sorted(sig, index, search_id, targets, (n - 1) as nat) {
            Err(e) => Err(e),
            Ok(s) => {
                let target = targets[n - 1];
                if has_receipt(sig.receipts, search_id, target.entry_id) {
                    Ok(Sorted { already: s.already.push(target.entry_id), ..s })
                } else {
                    match validated(sig.results, index, search_id, target) {
                        Err(e) => Err(e),
                        Ok(t) => Ok(Sorted { accepted: s.accepted.push(t), ..s }),
                    }
                }
            },
        }
    }
}

/// One more reinforcement, up to `max`. A count beyond `max` is kept.
pub open spec fn bumped(count: u8, max: u8) -> u8 {
    if count < max {
        (count + 1) as u8
    } else {
        count
    }
}

/// The statistics of an entry, among the first `n`.
pub open spec fn stats_at(stats: Seq<EntryStats>, entry: Id, n: nat) -> Option<int>
    decreases n,
{
    if n == 0 {
        None
    } else {
        match stats_at(stats, entry, (n - 1) as nat) {
            Some(i) => Some(i),
            None => if stats[n - 1].entry_id == entry {
                Some(n - 1)
            } else {
                None
            },
        }
    }
}

/// The entry's statistics after one more reinforcement.
pub open spec fn reinforced_stats(
    stats: Seq<EntryStats>,
    entry: Id,
    now: Moment,
    max: u8,
) -> EntryStats {
    EntryStats {
        entry_id: entry,
        reinforcement_count: match stats_at(stats, entry, stats.len()) {
            Some(i) => bumped(stats[i].reinforcement_count, max),
            None => 1,
        },
        last_reinforced_at: now,
        updated_at: now,
    }
}

/// The table with that row.
pub open spec fn with_stats(stats: Seq<EntryStats>, row: EntryStats) -> Seq<EntryStats> {
    match stats_at(stats, row.entry_id, stats.len()) {
        Some(i) => stats.update(i, row),
        None => stats.push(row),
    }
}

/// The example of the session's query for a target.
pub open spec fn example_at(
    rows: Seq<Affinity>,
    session: Session,
    hash: String,
    target: FeedbackTarget,
) -> Option<int> {
    affinity_merge::first_row(
        rows,
        |a: Affinity|
            a.has_target(
                hash@,
                session.embedding_model@,
                target.entry_id,
                target.block_id,
                target.chunk_id,
            ),
        rows.len(),
    )
}

/// That example after one more reinforcement: the session's query, text and
/// dimension, and the count that the example had, plus one.
pub open spec fn reinforced_example(
    rows: Seq<Affinity>,
    session: Session,
    hash: String,
    target: FeedbackTarget,
    fresh: Id,
    now: Moment,
    max: u8,
) -> Affinity {
    match example_at(rows, session, hash, target) {
        Some(i) => Affinity {
            raw_query_text: session.raw_query_text,
            effective_query_text: session.effective_query_text,
            embedding_dim: session.embedding_dim,
            reinforcement_count: bumped(rows[i].reinforcement_count, max),
            last_reinforced_at: now,
            updated_at: now,
            ..rows[i]
        },
        None => Affinity {
            id: fresh,
            query_hash: hash,
            raw_query_text: session.raw_query_text,
            effective_query_text: session.effective_query_text,
            embedding_model: session.embedding_model,
            embedding_dim: session.embedding_dim,
            entry_id: target.entry_id,
            block_id: target.block_id,
            chunk_id: target.chunk_id,
            reinforcement_count: 1,
            last_reinforced_at: now,
            created_at: now,
            updated_at: now,
        },
    }
}

/// The store with that example, and with the session's vector for it.
pub open spec fn with_example(
    store: StoreSpec,
    session: Session,
    hash: String,
    target: FeedbackTarget,
    row: Affinity,
) -> StoreSpec {
    StoreSpec {
        affinities: match example_at(store.affinities, session, hash, target) {
            Some(i) => store.affinities.update(i, row),
            None => store.affinities.push(row),
        },
        vectors: store.vectors.filter(|v: (Id, Seq<u8>)| v.0 != row.id).push(
            (row.id, session.query_embedding@),
        ),
    }
}

/// The state while accepted targets are applied, and what was applied.
#[verifier::ext_equal]
pub struct Progress {
    pub receipts: Seq<Receipt>,
    pub stats: Seq<EntryStats>,
    pub store: StoreSpec,
    pub applied: Seq<AppliedFeedback>,
}

/// One accepted target: a receipt, a reinforcement of the entry, and a
/// reinforcement of the query's example.
pub open spec fn apply_one(
    p: Progress,
    session: Session,
    hash: String,
    target: FeedbackTarget,
    fresh: (Id, Id),
    now: Moment,
    max: u8,
) -> Progress {
    let stats = reinforced_stats(p.stats, target.entry_id, now, max);
    let row = reinforced_example(p.store.affinities, session, hash, target, fresh.1, now, max);
    Progress {
        receipts: p.receipts.push(
            Receipt {
                id: fresh.0,
                search_id: session.id,
                entry_id: target.entry_id,
                block_id: target.block_id,
                chunk_id: target.chunk_id,
                created_at: now,
            },
        ),
        stats: with_stats(p.stats, stats),
        store: with_example(p.store, session, hash, target, row),
        applied: p.applied.push(
            AppliedFeedback {
                entry_id: target.entry_id,
                reinforcement_count: stats.reinforcement_count,
                affinity_count: row.reinforcement_count,
                last_reinforced_at: now.time->0,
            },
        ),
    }
}

/// The first `n` accepted targets, one after another.
pub open spec fn apply_all(
    p: Progress,
    session: Session,
    hash: String,
    targets: Seq<FeedbackTarget>,
    fresh: Seq<(Id, Id)>,
    now: Moment,
    max: u8,
    n: nat,
) -> Progress
    decreases n,
{
    if n == 0 {
        p
    } else {
        let before = apply_all(p, session, hash, targets, fresh, now, max, (n - 1) as nat);
        apply_one(before, session, hash, targets[n - 1], fresh[n - 1], now, max)
    }
}

/// What feedback leaves, and what it answers.
#[verifier::ext_equal]
pub struct Outcome {
    pub signals: SignalsSpec,
    pub applied: Seq<AppliedFeedback>,
    pub already_applied: Seq<Id>,
}

/// What feedback comes to once nothing speaks against it: `start` is the state
/// after the sweep and `at` the session's place.
pub open spec fn applied_to(
    start: SignalsSpec,
    at: int,
    index: ContentIndex,
    targets: Seq<FeedbackTarget>,
    now: Moment,
    max: u8,
    hash: String,
    fresh: Seq<(Id, Id)>,
) -> Result<Outcome, CoreFault> {
    match sorted(start, index, start.sessions[at].id, targets, targets.len()) {
        Err(e) => Err(e),
        Ok(s) => {
            let p = Progress {
                receipts: start.receipts,
                stats: start.stats,
                store: start.store,
                applied: Seq::empty(),
            };
            let end = apply_all(
                p,
                start.sessions[at],
                hash,
                s.accepted,
                fresh,
                now,
                max,
                s.accepted.len(),
            );
            Ok(
                Outcome {
                    signals: SignalsSpec {
                        receipts: end.receipts,
                        stats: end.stats,
                        store: end.store,
                        ..start
                    },
                    applied: end.applied,
                    already_applied: s.already,
                },
            )
        },
    }
}

/// What feedback leaves and answers, or why it is refused. `hash` is the hash
/// of the session's query; `fresh` holds new identifiers, a receipt's and an
/// example's for each target.
pub open spec fn feedback(
    sig: SignalsSpec,
    index: ContentIndex,
    search_id: Id,
    targets: Seq<FeedbackTarget>,
    active: Option<ActiveEmbedding>,
    now: Moment,
    max: u8,
    hash: String,
    fresh: Seq<(Id, Id)>,
) -> Result<Outcome, CoreFault> {
    let start = sessions::swept(sig, now.text@, Some(search_id), sessions::SWEEP as nat);
    match refusal(start.sessions, search_id, targets, active, now.time->0) {
        Some(e) => Err(e),
        None => applied_to(
            start,
            session_at(start.sessions, search_id, start.sessions.len())->0,
            index,
            targets,
            now,
            max,
            hash,
            fresh,
        ),
    }
}

fn find_session(sessions: &Vec<Session>, id: Id) -> (r: Option<usize>)
    ensures
        match r {
            Some(i) => i < sessions.len() && sessions@[i as int].id == id && session_at(
                sessions@,
                id,
                sessions@.len(),
            ) == Some(i as int),
            None => session_at(sessions@, id, sessions@.len()) is None,
        },
{
    let mut found: Option<usize> = None;
    let mut k: usize = 0;
    while k < sessions.len()
        invariant
            k <= sessions.len(),
            match found {
                Some(i) => i < k && sessions@[i as int].id == id && session_at(
                    sessions@,
                    id,
                    k as nat,
                ) == Some(i as int),
                None => session_at(sessions@, id, k as nat) is None,
            },
        decreases sessions.len() - k,
    {
        if found.is_none() && sessions[k].id == id {
            found = Some(k);
        }
        k += 1;
    }
    found
}

fn find_repeated(targets: &Vec<FeedbackTarget>) -> (r: Option<Id>)
    ensures
        r == repeated(targets@, targets@.len()),
{
    let mut found: Option<Id> = None;
    let mut k: usize = 0;
    while k < targets.len()
        invariant
            k <= targets.len(),
            found == repeated(targets@, k as nat),
        decreases targets.len() - k,
    {
        if found.is_none() {
            let mut j: usize = 0;
            let mut twice = false;
            while j < k
                invariant
                    j <= k < targets.len(),
                    twice == exists|x: int|
                        0 <= x < j && (#[trigger] targets@[x]).entry_id
                            == targets@[k as int].entry_id,
                decreases k - j,
            {
                if targets[j].entry_id == targets[k].entry_id {
                    proof {
                        assert(targets@[j as int].entry_id == targets@[k as int].entry_id);
                    }
                    twice = true;
                }
                j += 1;
            }
            if twice {
                found = Some(targets[k].entry_id);
            }
        }
        k += 1;
    }
    found
}

/// Refuse feedback on a session that is missing, has run out or was made with
/// another model, and targets that are none or repeat an entry.
pub fn check_feedback(
    sessions: &Vec<Session>,
    search_id: Id,
    targets: &Vec<FeedbackTarget>,
    active: &Option<ActiveEmbedding>,
    now: Timestamp,
) -> (r: Result<usize, CoreError>)
    ensures
        match r {
            Ok(i) => i < sessions.len() && sessions@[i as int].id == search_id && refusal(
                sessions@,
                search_id,
                targets@,
                *active,
                now,
            ) is None && session_at(sessions@, search_id, sessions@.len()) == Some(i as int),
            Err(e) => refusal(sessions@, search_id, targets@, *active, now) == Some(e@),
        },
{
    let i = match find_session(sessions, search_id) {
        Some(i) => i,
        None => {
            return Err(
                CoreError::ResourceNotFound { resource: "search session", id: search_id },
            );
        },
    };
    let session = &sessions[i];
    let expires = match session.expires_at.time {
        Some(t) => t,
        None => {
            return Err(affinity_merge::time_error(session.expires_at.text.as_str()));
        },
    };
    if !now.is_before(&expires) {
        return Err(CoreError::Conflict("search session expired".to_owned()));
    }
    if targets.len() == 0 {
        return Err(CoreError::validation("feedback targets must not be empty"));
    }
    if let Some(id) = find_repeated(targets) {
        return Err(CoreError::validation_of("duplicate feedback target: ", id));
    }
    if let Some(a) = active {
        let same_dim = session.embedding_dim >= 0 && session.embedding_dim as u64 == a.dim as u64;
        if !same_dim || !text::same(session.embedding_model.as_str(), a.model.as_str()) {
            let own = text::signed_text(session.embedding_dim);
            let dim = text::decimal_text(a.dim as u64);
            let mut m = text::text3(
                "search session embedding model/dimension mismatch: session ",
                session.embedding_model.as_str(),
                ":",
            );
            m.append(own.as_str());
            m.append(", active ");
            m.append(a.model.as_str());
            m.append(":");
            m.append(dim.as_str());
            m.append("; run search.hybrid again");
            return Err(CoreError::Conflict(m));
        }
    }
    Ok(i)
}

fn find_receipt(receipts: &Vec<Receipt>, search_id: Id, entry: Id) -> (r: bool)
    ensures
        r == has_receipt(receipts@, search_id, entry),
{
    let mut i: usize = 0;
    while i < receipts.len()
        invariant
            i <= receipts.len(),
            forall|k: int|
                0 <= k < i ==> !((#[trigger] receipts@[k]).search_id == search_id
                    && receipts@[k].entry_id == entry),
        decreases receipts.len() - i,
    {
        if receipts[i].search_id == search_id && receipts[i].entry_id == entry {
            return true;
        }
        i += 1;
    }
    false
}

proof fn lemma_sorted_err(
    sig: SignalsSpec,
    index: ContentIndex,
    search_id: Id,
    targets: Seq<FeedbackTarget>,
    n: nat,
    m: nat,
)
    requires
        n <= m,
        sorted(sig, index, search_id, targets, n) is Err,
    ensures
        sorted(sig, index, search_id, targets, m) == sorted(sig, index, search_id, targets, n),
    decreases m,
{
    if n < m {
        lemma_sorted_err(sig, index, search_id, targets, n, (m - 1) as nat);
    }
}

/// Sort targets into those applied before and those to apply now.
fn sort_targets(
    sig: &Signals,
    index: &ContentIndex,
    search_id: Id,
    targets: &Vec<FeedbackTarget>,
) -> (r: Result<(Vec<Id>, Vec<FeedbackTarget>), CoreError>)
    ensures
        match r {
            Ok((already, accepted)) => sorted(sig@, *index, search_id, targets@, targets@.len())
                == Ok::<Sorted, CoreFault>(Sorted { already: already@, accepted: accepted@ })
                && accepted.len() <= targets.len(),
            Err(e) => sorted(sig@, *index, search_id, targets@, targets@.len()) == Err::<
                Sorted,
                CoreFault,
            >(e@),
        },
{
    let mut already: Vec<Id> = Vec::new();
    let mut accepted: Vec<FeedbackTarget> = Vec::new();
    let mut i: usize = 0;
    while i < targets.len()
        invariant
            i <= targets.len(),
            accepted.len() <= i,
            sorted(sig@, *index, search_id, targets@, i as nat) == Ok::<Sorted, CoreFault>(
                Sorted { already: already@, accepted: accepted@ },
            ),
        decreases targets.len() - i,
    {
        let target = targets[i];
        if find_receipt(&sig.receipts, search_id, target.entry_id) {
            already.push(target.entry_id);
        } else {
            match validate_feedback_target(&sig.results, index, search_id, &target) {
                Ok(t) => {
                    accepted.push(t);
                },
                Err(e) => {
                    proof {
                        lemma_sorted_err(
                            sig@,
                            *index,
                            search_id,
                            targets@,
                            (i + 1) as nat,
                            targets@.len(),
                        );
                    }
                    return Err(e);
                },
            }
        }
        i += 1;
    }
    Ok((already, accepted))
}

pub fn find_stats(stats: &Vec<EntryStats>, entry: Id) -> (r: Option<usize>)
    ensures
        match r {
            Some(i) => i < stats.len() && stats_at(stats@, entry, stats@.len()) == Some(i as int),
            None => stats_at(stats@, entry, stats@.len()) is None,
        },
{
    let mut found: Option<usize> = None;
    let mut k: usize = 0;
    while k < stats.len()
        invariant
            k <= stats.len(),
            match found {
                Some(i) => i < k && stats_at(stats@, entry, k as nat) == Some(i as int),
                None => stats_at(stats@, entry, k as nat) is None,
            },
        decreases stats.len() - k,
    {
        if found.is_none() && stats[k].entry_id == entry {
            found = Some(k);
        }
        k += 1;
    }
    found
}

/// One more reinforcement, up to `max`.
pub fn bump(count: u8, max: u8) -> (r: u8)
    ensures
        r == bumped(count, max),
{
    if count < max {
        count + 1
    } else {
        count
    }
}

fn find_example(
    rows: &Vec<Affinity>,
    session: &Session,
    hash: &String,
    target: &FeedbackTarget,
) -> (r: Option<usize>)
    ensures
        match r {
            Some(i) => i < rows.len() && example_at(rows@, *session, *hash, *target) == Some(
                i as int,
            ),
            None => example_at(rows@, *session, *hash, *target) is None,
        },
{
    let ghost s = *session;
    let ghost h = *hash;
    let ghost t = *target;
    let ghost wanted = |a: Affinity|
        a.has_target(h@, s.embedding_model@, t.entry_id, t.block_id, t.chunk_id);
    let mut found: Option<usize> = None;
    let mut k: usize = 0;
    while k < rows.len()
        invariant
            k <= rows.len(),
            s == *session,
            h == *hash,
            t == *target,
            wanted == (|a: Affinity|
                a.has_target(h@, s.embedding_model@, t.entry_id, t.block_id, t.chunk_id)),
            match found {
                Some(i) => i < k && affinity_merge::first_row(rows@, wanted, k as nat) == Some(
                    i as int,
                ),
                None => affinity_merge::first_row(rows@, wanted, k as nat) is None,
            },
        decreases rows.len() - k,
    {
        if found.is_none() && rows[k].is_target(
            hash.as_str(),
            session.embedding_model.as_str(),
            target.entry_id,
            target.block_id,
            target.chunk_id,
        ) {
            found = Some(k);
        }
        k += 1;
    }
    found
}

/// Drop the vector of one example.
pub fn drop_vector(vectors: Vec<AffinityVector>, id: Id) -> (kept: Vec<AffinityVector>)
    ensures
        signals::vectors_of(kept@) == signals::vectors_of(vectors@).filter(
            |v: (Id, Seq<u8>)| v.0 != id,
        ),
{
    let ghost keep = |v: (Id, Seq<u8>)| v.0 != id;
    let ghost held = vectors@;
    let ghost all = signals::vectors_of(held);
    let mut kept: Vec<AffinityVector> = Vec::new();
    proof {
        assert(all.take(0).filter(keep) =~= Seq::empty()) by {
            reveal(Seq::filter);
        }
        assert(signals::vectors_of(kept@) =~= Seq::empty());
    }
    for row in it: vectors
        invariant
            it.seq() == held,
            all == signals::vectors_of(held),
            keep == (|v: (Id, Seq<u8>)| v.0 != id),
            signals::vectors_of(kept@) == all.take(it.index() as int).filter(keep),
    {
        proof {
            let i = it.index() as int;
            assert(all[i] == (row.affinity_id, row.embedding@));
            signals::lemma_filter_take(all, i, keep);
        }
        if row.affinity_id != id {
            let ghost before = kept@;
            let ghost pair = (row.affinity_id, row.embedding@);
            kept.push(row);
            proof {
                assert(signals::vectors_of(kept@) =~= signals::vectors_of(before).push(pair));
            }
        }
    }
    proof {
        assert(all.take(all.len() as int) =~= all);
    }
    kept
}

/// Reinforce the query's example for a target; gives its new count.
fn reinforce_example(
    store: AffinityStore,
    session: &Session,
    hash: &String,
    target: &FeedbackTarget,
    fresh: Id,
    now: &Moment,
    max: u8,
) -> (r: (AffinityStore, u8))
    ensures
        ({
            let row = reinforced_example(
                store@.affinities,
                *session,
                *hash,
                *target,
                fresh,
                *now,
                max,
            );
            &&& r.0@ == with_example(store@, *session, *hash, *target, row)
            &&& r.1 == row.reinforcement_count
        }),
{
    let AffinityStore { affinities, vectors } = store;
    let mut affinities = affinities;
    let ghost rows = affinities@;
    let ghost row = reinforced_example(rows, *session, *hash, *target, fresh, *now, max);
    let (id, count) = match find_example(&affinities, session, hash, target) {
        Some(i) => {
            let mut a = affinities[i].copy();
            a.raw_query_text = session.raw_query_text.clone();
            a.effective_query_text = session.effective_query_text.clone();
            a.embedding_dim = session.embedding_dim;
            a.reinforcement_count = bump(a.reinforcement_count, max);
            a.last_reinforced_at = now.copy();
            a.updated_at = now.copy();
            let id = a.id;
            let count = a.reinforcement_count;
            proof {
                assert(a == row);
            }
            affinities.set(i, a);
            (id, count)
        },
        None => {
            let a = Affinity {
                id: fresh,
                query_hash: hash.clone(),
                raw_query_text: session.raw_query_text.clone(),
                effective_query_text: session.effective_query_text.clone(),
                embedding_model: session.embedding_model.clone(),
                embedding_dim: session.embedding_dim,
                entry_id: target.entry_id,
                block_id: target.block_id,
                chunk_id: target.chunk_id,
                reinforcement_count: 1,
                last_reinforced_at: now.copy(),
                created_at: now.copy(),
                updated_at: now.copy(),
            };
            proof {
                assert(a == row);
            }
            affinities.push(a);
            (fresh, 1)
        },
    };
    let mut vectors = drop_vector(vectors, id);
    let ghost others = signals::vectors_of(vectors@);
    let embedding = affinity_merge::copy_bytes(&session.query_embedding);
    let v = AffinityVector { affinity_id: id, embedding };
    vectors.push(v);
    proof {
        assert(signals::vectors_of(vectors@) =~= others.push((id, session.query_embedding@)));
    }
    (AffinityStore { affinities, vectors }, count)
}

/// What a call answered, as mathematics.
pub open spec fn outcome_of(r: Result<(Signals, FeedbackResult), CoreError>) -> Result<
    Outcome,
    CoreFault,
> {
    match r {
        Ok((after, answer)) => Ok(
            Outcome {
                signals: after@,
                applied: answer.applied@,
                already_applied: answer.already_applied@,
            },
        ),
        Err(e) => Err(e@),
    }
}

/// Apply feedback that nothing speaks against.
fn apply_checked(
    state: Signals,
    at: usize,
    index: &ContentIndex,
    targets: &Vec<FeedbackTarget>,
    now: &Moment,
    max: u8,
    hash: &String,
    fresh: &Vec<(Id, Id)>,
) -> (r: Result<(Signals, FeedbackResult), CoreError>)
    requires
        at < state.sessions.len(),
        now.time is Some,
        fresh.len() >= targets.len(),
    ensures
        match r {
            Ok((after, answer)) => applied_to(
                state@,
                at as int,
                *index,
                targets@,
                *now,
                max,
                *hash,
                fresh@,
            ) == Ok::<Outcome, CoreFault>(
                Outcome {
                    signals: after@,
                    applied: answer.applied@,
                    already_applied: answer.already_applied@,
                },
            ),
            Err(e) => applied_to(
                state@,
                at as int,
                *index,
                targets@,
                *now,
                max,
                *hash,
                fresh@,
            ) == Err::<Outcome, CoreFault>(e@),
        },
{
    let time = now.time.unwrap();
    let ghost start = state@;
    let search_id = state.sessions[at].id;
    let (already, accepted) = match sort_targets(&state, index, search_id, targets) {
        Ok(s) => s,
        Err(e) => {
            return Err(e);
        },
    };
    let Signals { sessions, results, receipts, stats, store } = state;
    let mut receipts = receipts;
    let mut stats = stats;
    let mut store = store;
    let session = &sessions[at];
    let mut applied: Vec<AppliedFeedback> = Vec::new();
    let ghost p = Progress {
        receipts: start.receipts,
        stats: start.stats,
        store: start.store,
        applied: Seq::empty(),
    };
    let mut k: usize = 0;
    while k < accepted.len()
        invariant
            k <= accepted.len(),
            accepted.len() <= targets.len(),
            fresh.len() >= targets.len(),
            at < sessions.len(),
            *session == sessions@[at as int],
            session.id == search_id,
            now.time == Some(time),
            (Progress {
                receipts: receipts@,
                stats: stats@,
                store: store@,
                applied: applied@,
            }) == apply_all(
                p,
                *session,
                *hash,
                accepted@,
                fresh@,
                *now,
                max,
                k as nat,
            ),
        decreases accepted.len() - k,
    {
        let target = accepted[k];
        let ids = fresh[k];
        let ghost before = apply_all(p, *session, *hash, accepted@, fresh@, *now, max, k as nat);
        let receipt = Receipt {
            id: ids.0,
            search_id,
            entry_id: target.entry_id,
            block_id: target.block_id,
            chunk_id: target.chunk_id,
            created_at: now.copy(),
        };
        receipts.push(receipt);
        let found = find_stats(&stats, target.entry_id);
        let count: u8 = match found {
            Some(i) => bump(stats[i].reinforcement_count, max),
            None => 1,
        };
        let row = EntryStats {
            entry_id: target.entry_id,
            reinforcement_count: count,
            last_reinforced_at: now.copy(),
            updated_at: now.copy(),
        };
        match found {
            Some(i) => {
                stats.set(i, row);
            },
            None => {
                stats.push(row);
            },
        }
        let (next, affinity_count) = reinforce_example(
            store,
            session,
            hash,
            &target,
            ids.1,
            now,
            max,
        );
        store = next;
        applied.push(
            AppliedFeedback {
                entry_id: target.entry_id,
                reinforcement_count: count,
                affinity_count,
                last_reinforced_at: time,
            },
        );
        proof {
            let after = apply_one(before, *session, *hash, target, ids, *now, max);
            assert(receipts@ =~= after.receipts);
            assert(stats@ =~= after.stats);
            assert(applied@ =~= after.applied);
        }
        k += 1;
    }
    let after = Signals { sessions, results, receipts, stats, store };
    Ok((after, FeedbackResult { applied, already_applied: already }))
}

/// Apply positive feedback once per search and entry. `hash` is the hash of
/// the session's query.
pub fn apply_feedback_with_hash(
    sig: Signals,
    index: &ContentIndex,
    search_id: Id,
    targets: &Vec<FeedbackTarget>,
    active: &Option<ActiveEmbedding>,
    now: &Moment,
    max: u8,
    hash: &String,
    fresh: &Vec<(Id, Id)>,
) -> (r: Result<(Signals, FeedbackResult), CoreError>)
    requires
        now.time is Some,
        fresh.len() >= targets.len(),
    ensures
        outcome_of(r) == feedback(
            sig@,
            *index,
            search_id,
            targets@,
            *active,
            *now,
            max,
            *hash,
            fresh@,
        ),
{
    let time = now.time.unwrap();
    let (state, _) = sessions::purge_expired_sessions(
        sig,
        now.text.as_str(),
        sessions::SWEEP,
        Some(search_id),
    );
    match check_feedback(&state.sessions, search_id, targets, active, time) {
        Ok(at) => apply_checked(state, at, index, targets, now, max, hash, fresh),
        Err(e) => Err(e),
    }
}

/// The query that a session searched for, at the time of feedback on it.
pub open spec fn query_of(sig: SignalsSpec, search_id: Id, now: Moment) -> Seq<char> {
    let start = sessions::swept(sig, now.text@, Some(search_id), sessions::SWEEP as nat);
    let i = session_at(start.sessions, search_id, start.sessions.len())->0;
    start.sessions[i].effective_query_text@
}

/// Apply positive feedback once per search and entry, for the model and
/// dimension that are active. The query's hash recognises its example again.
pub fn apply_feedback_for_embedding(
    sig: Signals,
    index: &ContentIndex,
    search_id: Id,
    targets: &Vec<FeedbackTarget>,
    active: &Option<ActiveEmbedding>,
    now: &Moment,
    max: u8,
    fresh: &Vec<(Id, Id)>,
) -> (r: Result<(Signals, FeedbackResult), CoreError>)
    requires
        now.time is Some,
        fresh.len() >= targets.len(),
    ensures
        match r {
            Ok(_) => exists|hash: String|
                hash@ == hashing::query_hash_of(query_of(sig@, search_id, *now)) && outcome_of(r)
                    == #[trigger] feedback(
                    sig@,
                    *index,
                    search_id,
                    targets@,
                    *active,
                    *now,
                    max,
                    hash,
                    fresh@,
                ),
            Err(_) => forall|hash: String|
                outcome_of(r) == #[trigger] feedback(
                    sig@,
                    *index,
                    search_id,
                    targets@,
                    *active,
                    *now,
                    max,
                    hash,
                    fresh@,
                ),
        },
{
    let ghost before = sig@;
    let time = now.time.unwrap();
    let (state, _) = sessions::purge_expired_sessions(
        sig,
        now.text.as_str(),
        sessions::SWEEP,
        Some(search_id),
    );
    match check_feedback(&state.sessions, search_id, targets, active, time) {
        Ok(at) => {
            let hash = hashing::query_hash(state.sessions[at].effective_query_text.as_str());
            let r = apply_checked(state, at, index, targets, now, max, &hash, fresh);
            proof {
                assert(outcome_of(r) == feedback(
                    before,
                    *index,
                    search_id,
                    targets@,
                    *active,
                    *now,
                    max,
                    hash,
                    fresh@,
                ));
            }
            r
        },
        Err(e) => Err(e),
    }
}

/// Apply positive feedback once per search and entry, whatever model made the
/// session.
pub fn apply_feedback(
    sig: Signals,
    index: &ContentIndex,
    search_id: Id,
    targets: &Vec<FeedbackTarget>,
    now: &Moment,
    max: u8,
    fresh: &Vec<(Id, Id)>,
) -> (r: Result<(Signals, FeedbackResult), CoreError>)
    requires
        now.time is Some,
        fresh.len() >= targets.len(),
    ensures
        match r {
            Ok(_) => exists|hash: String|
                hash@ == hashing::query_hash_of(query_of(sig@, search_id, *now)) && outcome_of(r)
                    == #[trigger] feedback(
                    sig@,
                    *index,
                    search_id,
                    targets@,
                    None,
                    *now,
                    max,
                    hash,
                    fresh@,
                ),
            Err(_) => forall|hash: String|
                outcome_of(r) == #[trigger] feedback(
                    sig@,
                    *index,
                    search_id,
                    targets@,
                    None,
                    *now,
                    max,
                    hash,
                    fresh@,
                ),
        },
{
    apply_feedback_for_embedding(sig, index, search_id, targets, &None, now, max, fresh)
}

} // verus!
