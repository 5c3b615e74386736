//! What holds of ranked hits.
use vstd::prelude::*;

use crate::float_bits;
use crate::ids::Id;
use crate::memory_model::AffinityHit;
use crate::ordering;
use crate::ranking::{self, Candidate};

verus! {

/// The hit stems from the candidate that stands first among those of its
/// entry.
pub open spec fn is_first_of(rows: Seq<Candidate>, hit: AffinityHit, m: int) -> bool {
    &&& 0 <= m < rows.len()
    &&& hit == ranking::hit_of(rows[m], hit.affinity_rank)
    &&& forall|x: int| 0 <= x < m ==> (#[trigger] rows[x]).raw.entry_id != hit.entry_id
}

/// The hit stems from one of the first `n` candidates, the first of its entry.
pub open spec fn stems_from(rows: Seq<Candidate>, hit: AffinityHit, n: nat) -> bool {
    exists|m: int| #[trigger] is_first_of(rows, hit, m) && m < n
}

proof fn lemma_hits(rows: Seq<Candidate>, limit: nat, n: nat)
    requires
        n <= rows.len(),
        rows.len() <= u32::MAX,
        ordering::is_ordered(rows, ranking::by_strength()),
    ensures
        ({
            let hits = ranking::hits_of(rows, limit, n);
            &&& hits.len() <= n
            &&& limit > 0 ==> hits.len() <= limit
            &&& forall|k: int| 0 <= k < hits.len() ==> (#[trigger] hits[k]).affinity_rank == k + 1
            &&& forall|i: int, j: int|
                0 <= i < j < hits.len() ==> (#[trigger] hits[i]).entry_id != (
                #[trigger] hits[j]).entry_id
            &&& forall|i: int, j: int|
                0 <= i < j < hits.len() ==> float_bits::total_position(
                    (#[trigger] hits[i]).confidence,
                ) >= float_bits::total_position((#[trigger] hits[j]).confidence)
            &&& forall|k: int| 0 <= k < hits.len() ==> stems_from(rows, #[trigger] hits[k], n)
            &&& (limit == 0 || hits.len() < limit) ==> forall|m: int|
                0 <= m < n ==> ranking::is_hit(hits, (#[trigger] rows[m]).raw.entry_id)
        }),
    decreases n,
{
    if n > 0 {
        let p = (n - 1) as nat;
        lemma_hits(rows, limit, p);
        let before = ranking::hits_of(rows, limit, p);
        let hits = ranking::hits_of(rows, limit, n);
        let c = rows[n - 1];
        if (limit > 0 && before.len() == limit) || ranking::is_hit(before, c.raw.entry_id) {
            assert forall|k: int| 0 <= k < hits.len() implies stems_from(
                rows,
                #[trigger] hits[k],
                n,
            ) by {
                assert(stems_from(rows, before[k], p));
                let m = choose|m: int| #[trigger] is_first_of(rows, before[k], m) && m < p;
                assert(is_first_of(rows, hits[k], m));
            }
        } else {
            let last = hits[before.len() as int];
            assert forall|x: int| 0 <= x < n - 1 implies (#[trigger] rows[x]).raw.entry_id
                != last.entry_id by {
                assert(ranking::is_hit(before, rows[x].raw.entry_id));
            }
            assert(is_first_of(rows, last, n - 1));
            assert forall|k: int| 0 <= k < hits.len() implies stems_from(
                rows,
                #[trigger] hits[k],
                n,
            ) by {
                if k < before.len() {
                    assert(hits[k] == before[k]);
                    assert(stems_from(rows, before[k], p));
                    let m = choose|m: int| #[trigger] is_first_of(rows, before[k], m) && m < p;
                    assert(is_first_of(rows, hits[k], m));
                }
            }
            assert forall|i: int, j: int| 0 <= i < j < hits.len() implies
                float_bits::total_position((#[trigger] hits[i]).confidence)
                >= float_bits::total_position((#[trigger] hits[j]).confidence) by {
                assert(hits[i] == before[i]);
                if j < before.len() {
                    assert(hits[j] == before[j]);
                } else {
                    assert(stems_from(rows, before[i], p));
                    let m = choose|m: int| #[trigger] is_first_of(rows, before[i], m) && m < p;
                    assert(!ranking::stronger(rows[n - 1], rows[m]));
                }
            }
            assert forall|i: int, j: int| 0 <= i < j < hits.len() implies (
            #[trigger] hits[i]).entry_id != (#[trigger] hits[j]).entry_id by {
                assert(hits[i] == before[i]);
                if j < before.len() {
                    assert(hits[j] == before[j]);
                }
            }
            if limit == 0 || hits.len() < limit {
                assert forall|m: int| 0 <= m < n implies ranking::is_hit(
                    hits,
                    (#[trigger] rows[m]).raw.entry_id,
                ) by {
                    if m < n - 1 {
                        assert(ranking::is_hit(before, rows[m].raw.entry_id));
                        let k = choose|k: int|
                            0 <= k < before.len() && (#[trigger] before[k]).entry_id
                                == rows[m].raw.entry_id;
                        assert(hits[k].entry_id == rows[m].raw.entry_id);
                    } else {
                        assert(hits[before.len() as int].entry_id == rows[m].raw.entry_id);
                    }
                }
            }
        }
    }
}

/// The hit stems from one of the candidates, and no candidate of its entry is
/// stronger.
pub open spec fn is_strongest(candidates: Seq<Candidate>, hit: AffinityHit) -> bool {
    exists|c: Candidate|
        #![trigger candidates.contains(c)]
        candidates.contains(c) && hit == ranking::hit_of(c, hit.affinity_rank) && forall|d: Candidate|
            candidates.contains(d) && d.raw.entry_id == hit.entry_id ==> !(#[trigger] ranking::stronger(d, c))
}

/// Ranked hits: ranks count from 1, confidence never rises, no entry is hit
/// twice and each by its strongest example alone, so that examples do not
/// stack; no more than the limit; and an entry is missing only where the limit
/// is reached.
pub proof fn law_ranked_hits(candidates: Seq<Candidate>, limit: nat)
    requires
        candidates.len() <= u32::MAX,
    ensures
        ({
            let hits = ranking::ranked(candidates, limit);
            &&& limit > 0 ==> hits.len() <= limit
            &&& forall|k: int| 0 <= k < hits.len() ==> (#[trigger] hits[k]).affinity_rank == k + 1
            &&& forall|i: int, j: int|
                0 <= i < j < hits.len() ==> (#[trigger] hits[i]).entry_id != (
                #[trigger] hits[j]).entry_id
            &&& forall|i: int, j: int|
                0 <= i < j < hits.len() ==> float_bits::total_position(
                    (#[trigger] hits[i]).confidence,
                ) >= float_bits::total_position((#[trigger] hits[j]).confidence)
            &&& forall|k: int| 0 <= k < hits.len() ==> is_strongest(candidates, #[trigger] hits[k])
            &&& (limit == 0 || hits.len() < limit) ==> forall|c: Candidate|
                #[trigger] candidates.contains(c) ==> ranking::is_hit(hits, c.raw.entry_id)
        }),
{
    let rows = ordering::in_order(candidates, ranking::by_strength());
    let hits = ranking::ranked(candidates, limit);
    ordering::law_in_order(candidates, ranking::by_strength());
    ordering::lemma_in_order_members(candidates, ranking::by_strength());
    lemma_hits(rows, limit, rows.len());
    assert forall|k: int| 0 <= k < hits.len() implies is_strongest(
        candidates,
        #[trigger] hits[k],
    ) by {
        let hit = hits[k];
        assert(stems_from(rows, hit, rows.len()));
        let m = choose|m: int| #[trigger] is_first_of(rows, hit, m) && m < rows.len();
        let c = rows[m];
        assert(rows.contains(c));
        assert(candidates.contains(c));
        assert forall|d: Candidate|
            candidates.contains(d) && d.raw.entry_id == hit.entry_id implies !(
        #[trigger] ranking::stronger(d, c)) by {
            assert(rows.contains(d));
            let x = choose|x: int| 0 <= x < rows.len() && rows[x] == d;
            if x > m {
                assert(!ranking::stronger(rows[x], rows[m]));
            }
        }
    }
    if limit == 0 || hits.len() < limit {
        assert forall|c: Candidate| #[trigger]
            candidates.contains(c) implies ranking::is_hit(hits, c.raw.entry_id) by {
            assert(rows.contains(c));
            let m = choose|m: int| 0 <= m < rows.len() && rows[m] == c;
            assert(ranking::is_hit(hits, rows[m].raw.entry_id));
        }
    }
}

proof fn lemma_chosen(hits: Seq<AffinityHit>, required: Seq<Id>, limit: nat, n: nat)
    requires
        n <= hits.len(),
    ensures
        ({
            let out = ranking::chosen(hits, required, limit, n);
            &&& forall|k: int|
                0 <= k < out.len() ==> hits.contains(#[trigger] out[k])
            &&& forall|i: int|
                0 <= i < n && required.contains((#[trigger] hits[i]).entry_id) ==> out.contains(
                    hits[i],
                )
            &&& forall|i: int|
                0 <= i < n && ranking::others(hits, required, i as nat) < limit ==> out.contains(
                    #[trigger] hits[i],
                )
            &&& ranking::others(out, required, out.len()) <= limit
            &&& ranking::others(out, required, out.len()) <= ranking::others(hits, required, n)
            &&& ranking::others(hits, required, n) <= limit ==> ranking::others(
                out,
                required,
                out.len(),
            ) == ranking::others(hits, required, n)
        }),
    decreases n,
{
    if n > 0 {
        let p = (n - 1) as nat;
        lemma_chosen(hits, required, limit, p);
        let before = ranking::chosen(hits, required, limit, p);
        let out = ranking::chosen(hits, required, limit, n);
        let taken = required.contains(hits[n - 1].entry_id) || ranking::others(hits, required, p)
            < limit;
        if taken {
            assert(out[out.len() - 1] == hits[n - 1]);
            assert(hits.contains(hits[n - 1]));
            lemma_others_push(before, hits[n - 1], required, before.len());
        }
        assert forall|k: int| 0 <= k < out.len() implies hits.contains(#[trigger] out[k]) by {
            if k < before.len() {
                assert(out[k] == before[k]);
            }
        }
        assert forall|i: int|
            0 <= i < n && required.contains((#[trigger] hits[i]).entry_id) implies out.contains(
            hits[i],
        ) by {
            if i < n - 1 {
                let k = choose|k: int| 0 <= k < before.len() && before[k] == hits[i];
                assert(out[k] == hits[i]);
            }
        }
        assert forall|i: int|
            0 <= i < n && ranking::others(hits, required, i as nat) < limit implies out.contains(
            #[trigger] hits[i],
        ) by {
            if i < n - 1 {
                let k = choose|k: int| 0 <= k < before.len() && before[k] == hits[i];
                assert(out[k] == hits[i]);
            }
        }
    }
}

proof fn lemma_others_push(hits: Seq<AffinityHit>, hit: AffinityHit, required: Seq<Id>, n: nat)
    requires
        n <= hits.len(),
    ensures
        ranking::others(hits.push(hit), required, n) == ranking::others(hits, required, n),
        n == hits.len() ==> ranking::others(hits.push(hit), required, (n + 1) as nat)
            == ranking::others(hits, required, n) + if required.contains(hit.entry_id) {
            0nat
        } else {
            1nat
        },
    decreases n,
{
    if n > 0 {
        lemma_others_push(hits, hit, required, (n - 1) as nat);
        assert(hits.push(hit)[n - 1] == hits[n - 1]);
    }
}

/// Choosing hits keeps each hit for a required entry as it was, rank and all;
/// adds none; and keeps, of the others, the first ones up to the limit.
pub proof fn law_required_hits_are_kept(hits: Seq<AffinityHit>, required: Seq<Id>, limit: nat)
    ensures
        ({
            let out = ranking::chosen(hits, required, limit, hits.len());
            &&& forall|k: int| 0 <= k < out.len() ==> hits.contains(#[trigger] out[k])
            &&& forall|i: int|
                0 <= i < hits.len() && required.contains((#[trigger] hits[i]).entry_id)
                    ==> out.contains(hits[i])
            &&& forall|i: int|
                0 <= i < hits.len() && ranking::others(hits, required, i as nat) < limit
                    ==> out.contains(#[trigger] hits[i])
            &&& ranking::others(out, required, out.len()) <= limit
        }),
{
    lemma_chosen(hits, required, limit, hits.len());
}

} // verus!
