//! What grouping learned query examples keeps, and why the store stays sound.
use vstd::prelude::*;

use crate::affinity_merge;
use crate::ids::Id;
use crate::reembedding::{self, GroupSpec, Supplied};
use crate::signals::Affinity;

verus! {

/// Two groups of one query and target.
pub open spec fn same_key(a: GroupSpec, b: GroupSpec) -> bool {
    &&& a.query_hash == b.query_hash
    &&& a.entry_id == b.entry_id
    &&& a.block_id == b.block_id
    &&& a.chunk_id == b.chunk_id
}

pub open spec fn distinct_groups(groups: Seq<GroupSpec>) -> bool {
    forall|i: int, j: int|
        0 <= i < j < groups.len() ==> !same_key(#[trigger] groups[i], #[trigger] groups[j])
}

/// The group holds the example, is at least as strong, was reinforced and
/// updated no earlier, and was created no later.
pub open spec fn covers(g: GroupSpec, row: Affinity) -> bool {
    &&& g.takes(row)
    &&& g.member_ids.contains(row.id)
    &&& reembedding::capped(row.reinforcement_count) <= g.reinforcement_count
    &&& !g.last_reinforced_at.time->0.before(row.last_reinforced_at.time->0)
    &&& !g.updated_at.time->0.before(row.updated_at.time->0)
    &&& !row.created_at.time->0.before(g.created_at.time->0)
}

/// Some group covers the example.
pub open spec fn is_covered(groups: Seq<GroupSpec>, row: Affinity) -> bool {
    exists|i: int| 0 <= i < groups.len() && covers(#[trigger] groups[i], row)
}

/// The member is one of the examples, and the group's kind.
pub open spec fn is_member_row(rows: Seq<Affinity>, g: GroupSpec, id: Id) -> bool {
    exists|k: int| 0 <= k < rows.len() && (#[trigger] rows[k]).id == id && g.takes(rows[k])
}

/// A group is made of examples; its survivor is one of them, and the last one
/// reinforced; its strength is within what is ever stored.
pub open spec fn sound_group(rows: Seq<Affinity>, g: GroupSpec) -> bool {
    &&& g.last_reinforced_at.time is Some && g.created_at.time is Some && g.updated_at.time is Some
    &&& g.reinforcement_count <= reembedding::MAX_PERSISTED_REINFORCEMENTS
    &&& g.member_ids.contains(g.survivor_id)
    &&& forall|m: int|
        0 <= m < g.member_ids.len() ==> is_member_row(rows, g, #[trigger] g.member_ids[m])
    &&& exists|k: int|
        0 <= k < rows.len() && (#[trigger] rows[k]).id == g.survivor_id && g.takes(rows[k])
            && rows[k].last_reinforced_at.time == g.last_reinforced_at.time
}

spec fn sound(rows: Seq<Affinity>, groups: Seq<GroupSpec>) -> bool {
    &&& distinct_groups(groups)
    &&& forall|i: int| 0 <= i < groups.len() ==> sound_group(rows, #[trigger] groups[i])
    &&& forall|k: int| 0 <= k < rows.len() ==> is_covered(groups, #[trigger] rows[k])
}

proof fn lemma_sound_group_grows(rows: Seq<Affinity>, longer: Seq<Affinity>, g: GroupSpec)
    requires
        sound_group(rows, g),
        rows.len() <= longer.len(),
        forall|k: int| 0 <= k < rows.len() ==> #[trigger] rows[k] == longer[k],
    ensures
        sound_group(longer, g),
{
    assert forall|m: int| 0 <= m < g.member_ids.len() implies is_member_row(
        longer,
        g,
        #[trigger] g.member_ids[m],
    ) by {
        assert(is_member_row(rows, g, g.member_ids[m]));
        let k = choose|k: int|
            0 <= k < rows.len() && (#[trigger] rows[k]).id == g.member_ids[m] && g.takes(rows[k]);
        assert(longer[k].id == g.member_ids[m]);
    }
    let k = choose|k: int|
        0 <= k < rows.len() && (#[trigger] rows[k]).id == g.survivor_id && g.takes(rows[k])
            && rows[k].last_reinforced_at.time == g.last_reinforced_at.time;
    assert(longer[k].id == g.survivor_id);
}

proof fn lemma_joined(rows: Seq<Affinity>, g: GroupSpec, row: Affinity)
    requires
        rows.len() > 0,
        row == rows.last(),
        sound_group(rows.drop_last(), g),
        g.takes(row),
        reembedding::unreadable(row) is None,
    ensures
        sound_group(rows, g.joined(row)),
        covers(g.joined(row), row),
        forall|other: Affinity| #[trigger] covers(g, other) ==> covers(g.joined(row), other),
        same_key(g, g.joined(row)),
{
    let j = g.joined(row);
    let last = rows.len() - 1;
    lemma_sound_group_grows(rows.drop_last(), rows, g);
    assert(j.member_ids[j.member_ids.len() - 1] == row.id);
    assert(rows[last].id == row.id && j.takes(rows[last]));
    assert forall|m: int| 0 <= m < j.member_ids.len() implies is_member_row(
        rows,
        j,
        #[trigger] j.member_ids[m],
    ) by {
        if m < g.member_ids.len() {
            assert(is_member_row(rows, g, g.member_ids[m]));
            let k = choose|k: int|
                0 <= k < rows.len() && (#[trigger] rows[k]).id == g.member_ids[m] && g.takes(
                    rows[k],
                );
            assert(j.takes(rows[k]));
        }
    }
    if j.survivor_id != g.survivor_id || g.outlived_by(row) {
        assert(j.survivor_id == row.id);
        assert(j.last_reinforced_at.time == row.last_reinforced_at.time);
    } else {
        let k = choose|k: int|
            0 <= k < rows.len() && (#[trigger] rows[k]).id == g.survivor_id && g.takes(rows[k])
                && rows[k].last_reinforced_at.time == g.last_reinforced_at.time;
        assert(j.takes(rows[k]));
        let m = choose|m: int| 0 <= m < g.member_ids.len() && g.member_ids[m] == g.survivor_id;
        assert(j.member_ids[m] == g.survivor_id);
    }
    assert forall|other: Affinity| #[trigger] covers(g, other) implies covers(j, other) by {
        let m = choose|m: int| 0 <= m < g.member_ids.len() && g.member_ids[m] == other.id;
        assert(j.member_ids[m] == other.id);
    }
}

proof fn lemma_groups_sound(rows: Seq<Affinity>, n: nat)
    requires
        n <= rows.len(),
        reembedding::groups_of(rows, n) is Ok,
    ensures
        sound(rows.take(n as int), reembedding::groups_of(rows, n)->Ok_0),
    decreases n,
{
    if n > 0 {
        lemma_groups_sound(rows, (n - 1) as nat);
        let before = reembedding::groups_of(rows, (n - 1) as nat)->Ok_0;
        let groups = reembedding::groups_of(rows, n)->Ok_0;
        let row = rows[n - 1];
        let earlier = rows.take(n - 1);
        let now = rows.take(n as int);
        assert(now.drop_last() =~= earlier);
        lemma_found(before, row, before.len());
        match reembedding::group_for(before, row, before.len()) {
            Some(at) => {
                lemma_joined(now, before[at], row);
                assert(groups == before.update(at, before[at].joined(row)));
                assert forall|i: int, j: int| 0 <= i < j < groups.len() implies !same_key(
                    #[trigger] groups[i],
                    #[trigger] groups[j],
                ) by {
                    assert(!same_key(before[i], before[j]));
                }
                assert forall|i: int| 0 <= i < groups.len() implies sound_group(
                    now,
                    #[trigger] groups[i],
                ) by {
                    if i != at {
                        lemma_sound_group_grows(earlier, now, before[i]);
                    }
                }
                assert forall|k: int| 0 <= k < now.len() implies is_covered(
                    groups,
                    #[trigger] now[k],
                ) by {
                    if k == n - 1 {
                        assert(covers(groups[at], now[k]));
                    } else {
                        assert(earlier[k] == now[k]);
                        assert(is_covered(before, earlier[k]));
                        let i = choose|i: int|
                            0 <= i < before.len() && covers(#[trigger] before[i], earlier[k]);
                        assert(covers(groups[i], now[k]));
                    }
                }
            },
            None => {
                let fresh = GroupSpec::of(row);
                assert(groups == before.push(fresh));
                assert(fresh.member_ids[0] == row.id);
                assert(now[n - 1].id == row.id && fresh.takes(now[n - 1]));
                assert(is_member_row(now, fresh, fresh.member_ids[0]));
                assert(sound_group(now, fresh));
                assert forall|i: int, j: int| 0 <= i < j < groups.len() implies !same_key(
                    #[trigger] groups[i],
                    #[trigger] groups[j],
                ) by {
                    if j == before.len() {
                        assert(!before[i].takes(row));
                    } else {
                        assert(!same_key(before[i], before[j]));
                    }
                }
                assert forall|i: int| 0 <= i < groups.len() implies sound_group(
                    now,
                    #[trigger] groups[i],
                ) by {
                    if i < before.len() {
                        lemma_sound_group_grows(earlier, now, before[i]);
                    }
                }
                assert forall|k: int| 0 <= k < now.len() implies is_covered(
                    groups,
                    #[trigger] now[k],
                ) by {
                    if k == n - 1 {
                        assert(covers(groups[before.len() as int], now[k]));
                    } else {
                        assert(earlier[k] == now[k]);
                        assert(is_covered(before, earlier[k]));
                        let i = choose|i: int|
                            0 <= i < before.len() && covers(#[trigger] before[i], earlier[k]);
                        assert(covers(groups[i], now[k]));
                    }
                }
            },
        }
    }
}

proof fn lemma_found(groups: Seq<GroupSpec>, row: Affinity, n: nat)
    requires
        n <= groups.len(),
    ensures
        match reembedding::group_for(groups, row, n) {
            Some(i) => 0 <= i < n && groups[i].takes(row),
            None => forall|i: int| 0 <= i < n ==> !(#[trigger] groups[i]).takes(row),
        },
    decreases n,
{
    if n > 0 {
        lemma_found(groups, row, (n - 1) as nat);
    }
}

pub open spec fn in_order(groups: Seq<GroupSpec>) -> bool {
    forall|i: int, j: int|
        0 <= i < j < groups.len() ==> (#[trigger] groups[i]).survivor_id <= (
        #[trigger] groups[j]).survivor_id
}

proof fn lemma_place_splits(sorted: Seq<GroupSpec>, id: Id, n: nat)
    requires
        n <= sorted.len(),
        in_order(sorted),
    ensures
        0 <= reembedding::place_of(sorted, id, n) <= n,
        forall|i: int|
            0 <= i < reembedding::place_of(sorted, id, n) ==> (#[trigger] sorted[i]).survivor_id
                <= id,
        forall|i: int|
            reembedding::place_of(sorted, id, n) <= i < n ==> (#[trigger] sorted[i]).survivor_id
                > id,
    decreases n,
{
    if n > 0 && sorted[n - 1].survivor_id > id {
        lemma_place_splits(sorted, id, (n - 1) as nat);
    }
}

/// Sorting gives the same groups, each at one position, in order.
proof fn lemma_sorted(groups: Seq<GroupSpec>, n: nat)
    requires
        n <= groups.len(),
        distinct_groups(groups),
    ensures
        reembedding::sorted_groups(groups, n).len() == n,
        in_order(reembedding::sorted_groups(groups, n)),
        distinct_groups(reembedding::sorted_groups(groups, n)),
        forall|i: int|
            0 <= i < n ==> groups.take(n as int).contains(
                #[trigger] reembedding::sorted_groups(groups, n)[i],
            ),
        forall|i: int|
            0 <= i < n ==> reembedding::sorted_groups(groups, n).contains(#[trigger] groups[i]),
    decreases n,
{
    if n > 0 {
        lemma_sorted(groups, (n - 1) as nat);
        let before = reembedding::sorted_groups(groups, (n - 1) as nat);
        let g = groups[n - 1];
        let p = reembedding::place_of(before, g.survivor_id, before.len());
        lemma_place_splits(before, g.survivor_id, before.len());
        let after = before.insert(p, g);
        let shorter = groups.take(n - 1);
        let longer = groups.take(n as int);
        assert forall|i: int| 0 <= i < n implies longer.contains(#[trigger] after[i]) by {
            if i == p {
                assert(longer[n - 1] == g);
            } else {
                let k = if i < p {
                    i
                } else {
                    i - 1
                };
                assert(after[i] == before[k]);
                assert(shorter.contains(before[k]));
                let j = choose|j: int| 0 <= j < shorter.len() && shorter[j] == before[k];
                assert(longer[j] == before[k]);
            }
        }
        assert forall|i: int| 0 <= i < n implies after.contains(#[trigger] groups[i]) by {
            if i == n - 1 {
                assert(after[p] == g);
            } else {
                assert(before.contains(groups[i]));
                let k = choose|k: int| 0 <= k < before.len() && before[k] == groups[i];
                let x = if k < p {
                    k
                } else {
                    k + 1
                };
                assert(after[x] == groups[i]);
            }
        }
        assert forall|i: int, j: int| 0 <= i < j < after.len() implies (#[trigger] after[i]).survivor_id
            <= (#[trigger] after[j]).survivor_id && !same_key(after[i], after[j]) by {
            let a = if i < p {
                i
            } else {
                i - 1
            };
            let b = if j < p {
                j
            } else {
                j - 1
            };
            if i == p {
                assert(after[j] == before[b]);
                lemma_key_of(groups, shorter, before[b], n);
            } else if j == p {
                assert(after[i] == before[a]);
                lemma_key_of(groups, shorter, before[a], n);
            } else {
                assert(after[i] == before[a] && after[j] == before[b]);
                assert(!same_key(before[a], before[b]));
            }
        }
    }
}

proof fn lemma_key_of(groups: Seq<GroupSpec>, shorter: Seq<GroupSpec>, g: GroupSpec, n: nat)
    requires
        0 < n <= groups.len(),
        distinct_groups(groups),
        shorter == groups.take(n - 1),
        shorter.contains(g),
    ensures
        !same_key(g, groups[n - 1]),
        !same_key(groups[n - 1], g),
{
    let j = choose|j: int| 0 <= j < shorter.len() && shorter[j] == g;
    assert(groups[j] == g);
    assert(!same_key(groups[j], groups[n - 1]));
}

/// Grouping splits the examples by query and target: every example is covered
/// by a group, groups are of different kinds, each is made of examples, keeps
/// the last one reinforced, and never stacks strength. The groups come in the
/// order of their survivors.
pub proof fn law_groups_partition_the_examples(rows: Seq<Affinity>)
    ensures
        reembedding::reembedding_groups(rows) matches Ok(groups) ==> {
            &&& distinct_groups(groups)
            &&& in_order(groups)
            &&& forall|i: int| 0 <= i < groups.len() ==> sound_group(rows, #[trigger] groups[i])
            &&& forall|k: int| 0 <= k < rows.len() ==> is_covered(groups, #[trigger] rows[k])
        },
{
    if reembedding::reembedding_groups(rows) is Ok {
        let groups = reembedding::groups_of(rows, rows.len())->Ok_0;
        lemma_groups_sound(rows, rows.len());
        assert(rows.take(rows.len() as int) =~= rows);
        let sorted = reembedding::sorted_groups(groups, groups.len());
        assert(distinct_groups(sorted) && in_order(sorted)) by {
            lemma_sorted(groups, groups.len());
        }
        assert(forall|i: int| 0 <= i < sorted.len() ==> sound_group(rows, #[trigger] sorted[i])) by {
            assert(forall|i: int| 0 <= i < sorted.len() ==> groups.contains(#[trigger] sorted[i])) by {
                lemma_sorted(groups, groups.len());
                assert(groups.take(groups.len() as int) =~= groups);
            }
            lemma_sound_after_sort(rows, groups, sorted);
        }
        assert(forall|k: int| 0 <= k < rows.len() ==> is_covered(sorted, #[trigger] rows[k])) by {
            assert(forall|i: int| 0 <= i < groups.len() ==> sorted.contains(#[trigger] groups[i])) by {
                lemma_sorted(groups, groups.len());
            }
            lemma_covered_after_sort(rows, groups, sorted);
        }
    }
}

proof fn lemma_sound_after_sort(rows: Seq<Affinity>, groups: Seq<GroupSpec>, sorted: Seq<GroupSpec>)
    requires
        forall|i: int| 0 <= i < groups.len() ==> sound_group(rows, #[trigger] groups[i]),
        forall|i: int| 0 <= i < sorted.len() ==> groups.contains(#[trigger] sorted[i]),
    ensures
        forall|i: int| 0 <= i < sorted.len() ==> sound_group(rows, #[trigger] sorted[i]),
{
    assert forall|i: int| 0 <= i < sorted.len() implies sound_group(rows, #[trigger] sorted[i]) by {
        let k = choose|k: int| 0 <= k < groups.len() && groups[k] == sorted[i];
        assert(sound_group(rows, groups[k]));
    }
}

proof fn lemma_covered_after_sort(
    rows: Seq<Affinity>,
    groups: Seq<GroupSpec>,
    sorted: Seq<GroupSpec>,
)
    requires
        forall|k: int| 0 <= k < rows.len() ==> is_covered(groups, #[trigger] rows[k]),
        forall|i: int| 0 <= i < groups.len() ==> sorted.contains(#[trigger] groups[i]),
    ensures
        forall|k: int| 0 <= k < rows.len() ==> is_covered(sorted, #[trigger] rows[k]),
{
    assert forall|k: int| 0 <= k < rows.len() implies is_covered(sorted, #[trigger] rows[k]) by {
        assert(is_covered(groups, rows[k]));
        let i = choose|i: int| 0 <= i < groups.len() && covers(#[trigger] groups[i], rows[k]);
        assert(sorted.contains(groups[i]));
        let x = choose|x: int| 0 <= x < sorted.len() && sorted[x] == groups[i];
        assert(covers(sorted[x], rows[k]));
    }
}

/// Two groups have different survivors, where examples have different
/// identifiers.
proof fn lemma_survivors_differ(rows: Seq<Affinity>, groups: Seq<GroupSpec>)
    requires
        affinity_merge::distinct_ids(rows),
        distinct_groups(groups),
        forall|i: int| 0 <= i < groups.len() ==> sound_group(rows, #[trigger] groups[i]),
    ensures
        forall|i: int, j: int|
            0 <= i < j < groups.len() ==> (#[trigger] groups[i]).survivor_id != (
            #[trigger] groups[j]).survivor_id,
{
    assert forall|i: int, j: int| 0 <= i < j < groups.len() implies (
    #[trigger] groups[i]).survivor_id != (#[trigger] groups[j]).survivor_id by {
        let a = groups[i];
        let b = groups[j];
        if a.survivor_id == b.survivor_id {
            let x = choose|k: int|
                0 <= k < rows.len() && (#[trigger] rows[k]).id == a.survivor_id && a.takes(rows[k])
                    && rows[k].last_reinforced_at.time == a.last_reinforced_at.time;
            let y = choose|k: int|
                0 <= k < rows.len() && (#[trigger] rows[k]).id == b.survivor_id && b.takes(rows[k])
                    && rows[k].last_reinforced_at.time == b.last_reinforced_at.time;
            assert(x == y);
            assert(same_key(a, b));
        }
    }
}

/// After a change of model the store is sound again: one example for each
/// query and target, all on the new model, each with exactly one vector.
pub proof fn law_replacement_is_well_formed(
    rows: Seq<Affinity>,
    model: String,
    dim: usize,
    actual: Seq<char>,
    expected: Seq<char>,
    vectors: Supplied,
)
    requires
        affinity_merge::distinct_ids(rows),
    ensures
        reembedding::replaced(rows, model, dim, actual, expected, vectors) matches Ok(after) ==> {
            &&& after.well_formed()
            &&& after.vectors.len() == after.affinities.len()
            &&& forall|i: int|
                0 <= i < after.affinities.len() ==> (#[trigger] after.affinities[i]).id
                    == after.vectors[i].0 && after.affinities[i].embedding_model == model
                    && after.affinities[i].reinforcement_count
                    <= reembedding::MAX_PERSISTED_REINFORCEMENTS
        },
{
    if let Ok(after) = reembedding::replaced(rows, model, dim, actual, expected, vectors) {
        law_groups_partition_the_examples(rows);
        let groups = reembedding::reembedding_groups(rows)->Ok_0;
        lemma_survivors_differ(rows, groups);
        assert forall|i: int| 0 <= i < groups.len() implies {
            let row = #[trigger] after.affinities[i];
            row.id == groups[i].survivor_id && groups[i].takes(row)
        } by {
            let id = groups[i].survivor_id;
            affinity_merge::lemma_first_row(rows, |a: Affinity| a.id == id, rows.len());
            let k = choose|k: int|
                0 <= k < rows.len() && (#[trigger] rows[k]).id == id && groups[i].takes(rows[k])
                    && rows[k].last_reinforced_at.time == groups[i].last_reinforced_at.time;
            let at = affinity_merge::row_of_id(rows, id)->0;
            assert(rows[at].id == rows[k].id);
            assert(at == k);
        }
        assert forall|i: int, j: int| 0 <= i < j < after.affinities.len() implies !affinity_merge::same_target(
            #[trigger] after.affinities[i],
            #[trigger] after.affinities[j],
        ) && after.affinities[i].id != after.affinities[j].id by {
            assert(groups[i].survivor_id != groups[j].survivor_id);
            assert(!same_key(groups[i], groups[j]));
        }
        assert forall|i: int, j: int| 0 <= i < j < after.vectors.len() implies (
        #[trigger] after.vectors[i]).0 != (#[trigger] after.vectors[j]).0 by {
            assert(groups[i].survivor_id != groups[j].survivor_id);
        }
    }
}

} // verus!
