//! What holds of a fused ranking.
use vstd::prelude::*;

use crate::float_bits::F32Bits;
use crate::fusion;
use crate::ids::Id;
use crate::ordering;

verus! {

/// `a` is a smaller number than `b`. Patterns of positive numbers compare as
/// the numbers do, those of negative ones the other way round, and the two
/// zeros are equal.
pub open spec fn is_below(a: u32, b: u32) -> bool {
    if a < 0x8000_0000 && b < 0x8000_0000 {
        a < b
    } else if a < 0x8000_0000 {
        false
    } else if b < 0x8000_0000 {
        a != 0x8000_0000 || b != 0
    } else {
        b < a
    }
}

/// `rank` is the first place of `id` in the ranking, counted from 1, and the
/// largest number where it has none.
pub open spec fn is_first_place(ranking: Seq<Id>, id: Id, rank: u32) -> bool {
    if ranking.contains(id) {
        1 <= rank <= ranking.len() && ranking[rank - 1] == id && forall|i: int|
            0 <= i < rank - 1 ==> #[trigger] ranking[i] != id
    } else {
        rank == u32::MAX
    }
}

proof fn lemma_first_place(ranking: Seq<Id>, id: Id, n: nat)
    requires
        n <= ranking.len(),
        ranking.len() < u32::MAX,
    ensures
        ({
            let rank = fusion::first_place(ranking, id, n);
            if exists|i: int| 0 <= i < n && #[trigger] ranking[i] == id {
                1 <= rank <= n && ranking[rank - 1] == id && forall|i: int|
                    0 <= i < rank - 1 ==> #[trigger] ranking[i] != id
            } else {
                rank == u32::MAX
            }
        }),
    decreases n,
{
    if n > 0 {
        lemma_first_place(ranking, id, (n - 1) as nat);
        if exists|i: int| 0 <= i < n && #[trigger] ranking[i] == id {
            let i = choose|i: int| 0 <= i < n && #[trigger] ranking[i] == id;
            if i < n - 1 {
                assert(ranking[i] == id);
            }
        }
    }
}

/// Along a fused ranking the scores never rise; where two scores are equal, the
/// one with the smaller full-text place comes first. Every entry is one that was
/// scored, with its score and its first full-text place.
pub proof fn law_fused_scores_never_rise(
    scored: Seq<(Id, F32Bits)>,
    fulltext: Seq<Id>,
    top: nat,
)
    requires
        fulltext.len() < u32::MAX,
    ensures
        ({
            let out = fusion::fused(scored, fulltext, top);
            &&& forall|i: int, j: int|
                #![trigger out[i], out[j]]
                0 <= i < j < out.len() ==> !is_below(out[i].score, out[j].score) && (!is_below(
                    out[j].score,
                    out[i].score,
                ) ==> out[i].fulltext_rank <= out[j].fulltext_rank)
            &&& forall|i: int|
                0 <= i < out.len() ==> scored.contains(((#[trigger] out[i]).id, out[i].score))
                    && is_first_place(fulltext, out[i].id, out[i].fulltext_rank)
        }),
{
    let all = fusion::with_places(scored, fulltext);
    let before = fusion::by_score();
    let sorted = ordering::in_order(all, before);
    ordering::law_in_order(all, before);
    ordering::lemma_in_order_members(all, before);
    let out = fusion::fused(scored, fulltext, top);
    assert forall|i: int, j: int|
        #![trigger out[i], out[j]]
        0 <= i < j < out.len() implies !is_below(out[i].score, out[j].score) && (!is_below(
        out[j].score,
        out[i].score,
    ) ==> out[i].fulltext_rank <= out[j].fulltext_rank) by {
        assert(out[i] == sorted[i] && out[j] == sorted[j]);
        assert(!before(sorted[j], sorted[i]));
    }
    assert forall|i: int| 0 <= i < out.len() implies scored.contains(
        ((#[trigger] out[i]).id, out[i].score),
    ) && is_first_place(fulltext, out[i].id, out[i].fulltext_rank) by {
        assert(out[i] == sorted[i]);
        assert(sorted.contains(out[i]));
        assert(all.contains(out[i]));
        let k = choose|k: int| 0 <= k < all.len() && all[k] == out[i];
        assert(scored[k] == (out[i].id, out[i].score));
        lemma_first_place(fulltext, out[i].id, fulltext.len());
        let here = exists|i: int| 0 <= i < fulltext.len() && #[trigger] fulltext[i] == scored[k].0;
        if fulltext.contains(scored[k].0) {
            let x = choose|x: int| 0 <= x < fulltext.len() && fulltext[x] == scored[k].0;
            assert(fulltext[x] == scored[k].0);
            assert(here);
        }
    }
}

/// A scored entry is missing only from a ranking that is full, and no entry of
/// that ranking has a smaller score.
pub proof fn law_best_scores_are_kept(
    scored: Seq<(Id, F32Bits)>,
    fulltext: Seq<Id>,
    top: nat,
    k: int,
)
    requires
        fulltext.len() < u32::MAX,
        0 <= k < scored.len(),
    ensures
        ({
            let out = fusion::fused(scored, fulltext, top);
            ||| exists|i: int|
                0 <= i < out.len() && (#[trigger] out[i]).id == scored[k].0 && out[i].score
                    == scored[k].1
            ||| out.len() == top && forall|i: int|
                0 <= i < out.len() ==> !is_below((#[trigger] out[i]).score, scored[k].1)
        }),
        fusion::fused(scored, fulltext, top).len() <= top,
{
    let all = fusion::with_places(scored, fulltext);
    let before = fusion::by_score();
    let sorted = ordering::in_order(all, before);
    ordering::law_in_order(all, before);
    ordering::lemma_in_order_members(all, before);
    let out = fusion::fused(scored, fulltext, top);
    let own = all[k];
    assert(all.contains(own));
    assert(sorted.contains(own));
    let x = choose|x: int| 0 <= x < sorted.len() && sorted[x] == own;
    if x < out.len() {
        assert(out[x] == own);
    } else {
        assert forall|i: int| 0 <= i < out.len() implies !is_below(
            (#[trigger] out[i]).score,
            scored[k].1,
        ) by {
            assert(out[i] == sorted[i]);
            assert(!before(sorted[x], sorted[i]));
        }
    }
}

/// The places of an entry in a ranking are those where it stands, counted from
/// 1, in ascending order.
pub proof fn law_places_are_where_it_stands(ranking: Seq<Id>, id: Id, n: nat)
    requires
        n <= ranking.len(),
        ranking.len() <= u64::MAX,
    ensures
        ({
            let found = fusion::places(ranking, id, n);
            &&& forall|k: int|
                0 <= k < found.len() ==> 1 <= #[trigger] found[k] <= n && ranking[found[k] - 1]
                    == id
            &&& forall|k: int, l: int|
                0 <= k < l < found.len() ==> #[trigger] found[k] < #[trigger] found[l]
            &&& forall|i: int|
                0 <= i < n && #[trigger] ranking[i] == id ==> found.contains((i + 1) as u64)
        }),
    decreases n,
{
    if n > 0 {
        law_places_are_where_it_stands(ranking, id, (n - 1) as nat);
        let before = fusion::places(ranking, id, (n - 1) as nat);
        let found = fusion::places(ranking, id, n);
        assert forall|i: int| 0 <= i < n && #[trigger] ranking[i] == id implies found.contains(
            (i + 1) as u64,
        ) by {
            if i < n - 1 {
                assert(before.contains((i + 1) as u64));
                let k = choose|k: int| 0 <= k < before.len() && before[k] == (i + 1) as u64;
                assert(found[k] == (i + 1) as u64);
            } else {
                assert(found[before.len() as int] == (i + 1) as u64);
            }
        }
    }
}

} // verus!
