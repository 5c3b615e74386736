//! Merging a full-text and a semantic ranking of entries.
//!
//! An entry's fused score is the sum of `weight / (60 + rank)` over its places
//! in the two rankings. The sum is floating-point arithmetic and is made
//! elsewhere; what is decided here is which places an entry has, and how fused
//! entries are ordered.
use vstd::prelude::*;

use crate::float_bits::{self, F32Bits};
use crate::ids::Id;
use crate::ordering::{self, Order, Ranked};
use crate::signals;

verus! {

/// The places, counted from 1, that `id` has among the first `n` of a ranking.
pub open spec fn places(ranking: Seq<Id>, id: Id, n: nat) -> Seq<u64>
    decreases n,
{
    if n == 0 {
        Seq::empty()
    } else {
        let before = places(ranking, id, (n - 1) as nat);
        if ranking[n - 1] == id {
            before.push(n as u64)
        } else {
            before
        }
    }
}

/// `ids`, with those of the first `n` of a ranking that it lacks.
pub open spec fn gathered(ids: Seq<Id>, ranking: Seq<Id>, n: nat) -> Seq<Id>
    decreases n,
{
    if n == 0 {
        ids
    } else {
        let before = gathered(ids, ranking, (n - 1) as nat);
        if before.contains(ranking[n - 1]) {
            before
        } else {
            before.push(ranking[n - 1])
        }
    }
}

/// The entries of both rankings, each once.
pub open spec fn fused_ids(fulltext: Seq<Id>, semantic: Seq<Id>) -> Seq<Id> {
    gathered(gathered(Seq::empty(), fulltext, fulltext.len()), semantic, semantic.len())
}

/// An entry with its places in the two rankings.
#[derive(Debug, Clone)]
pub struct FusedRanks {
    pub id: Id,
    pub fulltext: Vec<u64>,
    pub semantic: Vec<u64>,
}

fn gather(ids: Vec<Id>, ranking: &Vec<Id>) -> (r: Vec<Id>)
    ensures
        r@ == gathered(ids@, ranking@, ranking@.len()),
{
    let ghost start = ids@;
    let mut out = ids;
    let mut i: usize = 0;
    while i < ranking.len()
        invariant
            i <= ranking.len(),
            start == ids@,
            out@ == gathered(start, ranking@, i as nat),
        decreases ranking.len() - i,
    {
        if !signals::contains_id(&out, ranking[i]) {
            out.push(ranking[i]);
        }
        i += 1;
    }
    out
}

fn find_places(ranking: &Vec<Id>, id: Id) -> (r: Vec<u64>)
    ensures
        r@ == places(ranking@, id, ranking@.len()),
{
    let mut out: Vec<u64> = Vec::new();
    let mut i: usize = 0;
    while i < ranking.len()
        invariant
            i <= ranking.len(),
            out@ == places(ranking@, id, i as nat),
        decreases ranking.len() - i,
    {
        i += 1;
        if ranking[i - 1] == id {
            out.push(i as u64);
        }
    }
    out
}

/// The places of every entry of two rankings.
pub fn fused_ranks(fulltext: &Vec<Id>, semantic: &Vec<Id>) -> (r: Vec<FusedRanks>)
    ensures
        r.len() == fused_ids(fulltext@, semantic@).len(),
        forall|i: int|
            0 <= i < r.len() ==> {
                &&& (#[trigger] r@[i]).id == fused_ids(fulltext@, semantic@)[i]
                &&& r@[i].fulltext@ == places(fulltext@, r@[i].id, fulltext@.len())
                &&& r@[i].semantic@ == places(semantic@, r@[i].id, semantic@.len())
            },
{
    let ids = gather(gather(Vec::new(), fulltext), semantic);
    let mut out: Vec<FusedRanks> = Vec::new();
    let mut i: usize = 0;
    while i < ids.len()
        invariant
            i <= ids.len(),
            ids@ == fused_ids(fulltext@, semantic@),
            out.len() == i,
            forall|k: int|
                0 <= k < i ==> {
                    &&& (#[trigger] out@[k]).id == ids@[k]
                    &&& out@[k].fulltext@ == places(fulltext@, out@[k].id, fulltext@.len())
                    &&& out@[k].semantic@ == places(semantic@, out@[k].id, semantic@.len())
                },
        decreases ids.len() - i,
    {
        let id = ids[i];
        out.push(
            FusedRanks {
                id,
                fulltext: find_places(fulltext, id),
                semantic: find_places(semantic, id),
            },
        );
        i += 1;
    }
    out
}

/// An entry with its fused score.
#[derive(Debug, Clone, Copy, PartialEq, Eq, Structural)]
pub struct Fused {
    pub id: Id,
    pub score: F32Bits,
    /// The first place in the full-text ranking; the largest number where the
    /// entry has none.
    pub fulltext_rank: u32,
}

/// Fused entries go by score, the larger first, and then by their place in the
/// full-text ranking.
pub open spec fn by_score() -> Order<Fused> {
    |a: Fused, b: Fused|
        {
            let (s, t) = (float_bits::position32(a.score), float_bits::position32(b.score));
            s > t || (s == t && a.fulltext_rank < b.fulltext_rank)
        }
}

impl View for Fused {
    type V = Fused;

    open spec fn view(&self) -> Fused {
        *self
    }
}

impl Ranked<()> for Fused {
    open spec fn order(mode: ()) -> Order<Fused> {
        by_score()
    }

    fn is_before(&self, other: &Fused, mode: &()) -> (r: bool) {
        let s = float_bits::position_of32(self.score);
        let t = float_bits::position_of32(other.score);
        s > t || (s == t && self.fulltext_rank < other.fulltext_rank)
    }
}

/// The first place that `id` has among the first `n` of a ranking.
pub open spec fn first_place(ranking: Seq<Id>, id: Id, n: nat) -> u32
    decreases n,
{
    if n == 0 {
        u32::MAX
    } else {
        let before = first_place(ranking, id, (n - 1) as nat);
        if before == u32::MAX && ranking[n - 1] == id {
            n as u32
        } else {
            before
        }
    }
}

/// Scored entries with their place in the full-text ranking.
pub open spec fn with_places(scored: Seq<(Id, F32Bits)>, fulltext: Seq<Id>) -> Seq<Fused> {
    scored.map_values(
        |s: (Id, F32Bits)|
            Fused {
                id: s.0,
                score: s.1,
                fulltext_rank: first_place(fulltext, s.0, fulltext.len()),
            },
    )
}

/// The best `top` of scored entries, in order.
pub open spec fn fused(scored: Seq<(Id, F32Bits)>, fulltext: Seq<Id>, top: nat) -> Seq<Fused> {
    let all = ordering::in_order(with_places(scored, fulltext), by_score());
    if all.len() <= top {
        all
    } else {
        all.take(top as int)
    }
}

fn find_first_place(ranking: &Vec<Id>, id: Id) -> (r: u32)
    requires
        ranking.len() < u32::MAX,
    ensures
        r == first_place(ranking@, id, ranking@.len()),
{
    let mut r: u32 = u32::MAX;
    let mut i: usize = 0;
    while i < ranking.len()
        invariant
            i <= ranking.len(),
            ranking.len() < u32::MAX,
            r == first_place(ranking@, id, i as nat),
        decreases ranking.len() - i,
    {
        i += 1;
        if r == u32::MAX && ranking[i - 1] == id {
            r = i as u32;
        }
    }
    r
}

/// Order scored entries: the best score first, the earlier in the full-text
/// ranking where scores are equal, and no more than `top`. Entries that are
/// equal in both stay in the order given.
pub fn rrf_fuse(scored: &Vec<(Id, F32Bits)>, fulltext: &Vec<Id>, top: usize) -> (r: Vec<Fused>)
    requires
        fulltext.len() < u32::MAX,
        forall|i: int|
            0 <= i < scored.len() ==> float_bits::is_number32((#[trigger] scored@[i]).1),
    ensures
        r@ == fused(scored@, fulltext@, top as nat),
{
    let ghost all = with_places(scored@, fulltext@);
    let mut rows: Vec<Fused> = Vec::new();
    let mut i: usize = 0;
    while i < scored.len()
        invariant
            i <= scored.len(),
            fulltext.len() < u32::MAX,
            all == with_places(scored@, fulltext@),
            rows@ == all.take(i as int),
        decreases scored.len() - i,
    {
        let (id, score) = scored[i];
        rows.push(Fused { id, score, fulltext_rank: find_first_place(fulltext, id) });
        proof {
            assert(all.take(i + 1) =~= all.take(i as int).push(all[i as int]));
        }
        i += 1;
    }
    proof {
        assert(all.take(i as int) =~= all);
    }
    let sorted = ordering::put_in_order(rows, &());
    proof {
        ordering::lemma_own_views(all);
        ordering::lemma_own_views(sorted@);
    }
    if sorted.len() <= top {
        return sorted;
    }
    let mut out: Vec<Fused> = Vec::new();
    let mut k: usize = 0;
    while k < top
        invariant
            k <= top < sorted.len(),
            out@ == sorted@.take(k as int),
        decreases top - k,
    {
        out.push(sorted[k]);
        proof {
            assert(sorted@.take(k + 1) =~= sorted@.take(k as int).push(sorted@[k as int]));
        }
        k += 1;
    }
    out
}

/// A fused ranking is ordered, has no more than `top` entries, and leaves one
/// out only where it is full.
pub proof fn law_fused_ranking(scored: Seq<(Id, F32Bits)>, fulltext: Seq<Id>, top: nat)
    ensures
        ordering::is_ordered(fused(scored, fulltext, top), by_score()),
        fused(scored, fulltext, top).len() == if scored.len() <= top {
            scored.len()
        } else {
            top
        },
        scored.len() <= top ==> fused(scored, fulltext, top).to_multiset() == with_places(
            scored,
            fulltext,
        ).to_multiset(),
{
    ordering::law_in_order(with_places(scored, fulltext), by_score());
}

proof fn lemma_gathered(ids: Seq<Id>, ranking: Seq<Id>, n: nat)
    requires
        n <= ranking.len(),
        ids.no_duplicates(),
    ensures
        gathered(ids, ranking, n).no_duplicates(),
        forall|id: Id|
            #![trigger gathered(ids, ranking, n).contains(id)]
            gathered(ids, ranking, n).contains(id) <==> ids.contains(id) || exists|i: int|
                0 <= i < n && #[trigger] ranking[i] == id,
    decreases n,
{
    if n > 0 {
        let p = (n - 1) as nat;
        lemma_gathered(ids, ranking, p);
        let before = gathered(ids, ranking, p);
        let out = gathered(ids, ranking, n);
        let last = ranking[n - 1];
        assert forall|id: Id| #![trigger out.contains(id)]
            out.contains(id) <==> ids.contains(id) || exists|i: int|
                0 <= i < n && #[trigger] ranking[i] == id by {
            if before.contains(id) {
                let k = choose|k: int| 0 <= k < before.len() && before[k] == id;
                assert(out[k] == id);
            }
            if id == last && !before.contains(last) {
                assert(out[out.len() - 1] == id);
            }
            if out.contains(id) && !before.contains(id) {
                assert(id == last);
            }
            if exists|i: int| 0 <= i < n && #[trigger] ranking[i] == id {
                let i = choose|i: int| 0 <= i < n && #[trigger] ranking[i] == id;
                if i < p {
                    assert(before.contains(id));
                }
            }
            if exists|i: int| 0 <= i < p && #[trigger] ranking[i] == id {
                let i = choose|i: int| 0 <= i < p && #[trigger] ranking[i] == id;
                assert(ranking[i] == id && i < n);
            }
        }
    }
}

/// Every entry of either ranking is fused, once, and no other.
pub proof fn law_fused_entries(fulltext: Seq<Id>, semantic: Seq<Id>)
    ensures
        fused_ids(fulltext, semantic).no_duplicates(),
        forall|id: Id|
            #[trigger] fused_ids(fulltext, semantic).contains(id) <==> fulltext.contains(id)
                || semantic.contains(id),
{
    lemma_gathered(Seq::empty(), fulltext, fulltext.len());
    let first = gathered(Seq::empty(), fulltext, fulltext.len());
    lemma_gathered(first, semantic, semantic.len());
    assert forall|id: Id|
        #[trigger] fused_ids(fulltext, semantic).contains(id) <==> fulltext.contains(id)
            || semantic.contains(id) by {
        assert(first.contains(id) <==> fulltext.contains(id));
    }
}

} // verus!
