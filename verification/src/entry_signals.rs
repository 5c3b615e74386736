//! What an entry's weight in memory rests on.
use vstd::prelude::*;

use crate::affinity_merge;
use crate::error::{CoreError, CoreFault};
use crate::feedback;
use crate::ids::Id;
use crate::signals::{self, EntryStats, Moment};
use crate::time::Timestamp;

verus! {

/// An entry and when it was created.
#[derive(Debug, Clone)]
pub struct EntryCreated {
    pub id: Id,
    pub created_at: Moment,
}

/// How often, and when last, an entry was reinforced. An entry that never was
/// counts from its creation.
#[derive(Debug, Clone, Copy, PartialEq, Eq, Structural)]
pub struct SignalBasis {
    pub entry_id: Id,
    pub reinforcement_count: u8,
    pub last_reinforced_at: Timestamp,
}

/// The stored time that an entry's weight counts from.
pub open spec fn counted_from(e: EntryCreated, stats: Seq<EntryStats>) -> Moment {
    match feedback::stats_at(stats, e.id, stats.len()) {
        Some(i) => stats[i].last_reinforced_at,
        None => e.created_at,
    }
}

/// How often an entry was reinforced.
pub open spec fn count_of(e: EntryCreated, stats: Seq<EntryStats>) -> u8 {
    match feedback::stats_at(stats, e.id, stats.len()) {
        Some(i) => stats[i].reinforcement_count,
        None => 0,
    }
}

/// What the weights of those of the first `n` entries rest on that are asked
/// for.
pub open spec fn bases(
    entries: Seq<EntryCreated>,
    stats: Seq<EntryStats>,
    ids: Seq<Id>,
    n: nat,
) -> Result<Seq<SignalBasis>, CoreFault>
    decreases n,
{
    if n == 0 {
        Ok(Seq::empty())
    } else {
        match bases(entries, stats, ids, (n - 1) as nat) {
            Err(e) => Err(e),
            Ok(before) => {
                let e = entries[n - 1];
                if !ids.contains(e.id) {
                    Ok(before)
                } else {
                    match counted_from(e, stats).time {
                        None => Err(affinity_merge::time_fault(counted_from(e, stats).text@)),
                        Some(t) => Ok(
                            before.push(
                                SignalBasis {
                                    entry_id: e.id,
                                    reinforcement_count: count_of(e, stats),
                                    last_reinforced_at: t,
                                },
                            ),
                        ),
                    }
                }
            },
        }
    }
}

proof fn lemma_bases_err(
    entries: Seq<EntryCreated>,
    stats: Seq<EntryStats>,
    ids: Seq<Id>,
    n: nat,
    m: nat,
)
    requires
        n <= m,
        bases(entries, stats, ids, n) is Err,
    ensures
        bases(entries, stats, ids, m) == bases(entries, stats, ids, n),
    decreases m,
{
    if n < m {
        lemma_bases_err(entries, stats, ids, n, (m - 1) as nat);
    }
}

/// What the weights of the entries that are asked for rest on.
pub fn entry_memory_signals(
    entries: &Vec<EntryCreated>,
    stats: &Vec<EntryStats>,
    ids: &Vec<Id>,
) -> (r: Result<Vec<SignalBasis>, CoreError>)
    ensures
        match r {
            Ok(out) => bases(entries@, stats@, ids@, entries@.len()) == Ok::<
                Seq<SignalBasis>,
                CoreFault,
            >(out@),
            Err(e) => bases(entries@, stats@, ids@, entries@.len()) == Err::<
                Seq<SignalBasis>,
                CoreFault,
            >(e@),
        },
{
    let mut out: Vec<SignalBasis> = Vec::new();
    let mut i: usize = 0;
    while i < entries.len()
        invariant
            i <= entries.len(),
            bases(entries@, stats@, ids@, i as nat) == Ok::<Seq<SignalBasis>, CoreFault>(out@),
        decreases entries.len() - i,
    {
        let e = &entries[i];
        if signals::contains_id(ids, e.id) {
            let (count, from) = match feedback::find_stats(stats, e.id) {
                Some(k) => (stats[k].reinforcement_count, &stats[k].last_reinforced_at),
                None => (0u8, &e.created_at),
            };
            match from.time {
                None => {
                    proof {
                        lemma_bases_err(
                            entries@,
                            stats@,
                            ids@,
                            (i + 1) as nat,
                            entries@.len(),
                        );
                    }
                    return Err(affinity_merge::time_error(from.text.as_str()));
                },
                Some(t) => {
                    out.push(
                        SignalBasis {
                            entry_id: e.id,
                            reinforcement_count: count,
                            last_reinforced_at: t,
                        },
                    );
                },
            }
        }
        i += 1;
    }
    Ok(out)
}

} // verus!
