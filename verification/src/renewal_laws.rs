//! What holds of learning examples anew for another model.
use vstd::prelude::*;
use vstd::string::*;

use crate::float_bits;
use crate::hashing;
use crate::ids::Id;
use crate::listing_laws::no_later;
use crate::memory_laws::is_latest;
use crate::reembedding::{self, GroupSpec, Supplied};
use crate::signals::{self, Affinity};

verus! {

/// The examples of one query that lead to one place, whatever their model.
pub open spec fn examples_of(
    rows: Seq<Affinity>,
    hash: Seq<char>,
    entry: Id,
    block: Option<Id>,
    chunk: Option<Id>,
) -> Seq<Affinity> {
    rows.filter(is_of(hash, entry, block, chunk))
}

/// The example is of that query and leads to that place.
pub open spec fn is_of(
    hash: Seq<char>,
    entry: Id,
    block: Option<Id>,
    chunk: Option<Id>,
) -> spec_fn(Affinity) -> bool {
    |a: Affinity|
        a.query_hash@ == hash && a.entry_id == entry && a.block_id == block && a.chunk_id == chunk
}

/// A count as it is kept: three at most.
pub open spec fn kept_count(count: u8) -> int {
    if count < 3 {
        count as int
    } else {
        3
    }
}

/// `g` is what those examples come to: it names them all, keeps the largest
/// count, the latest reinforcement and update and the earliest creation, and
/// its survivor is one that was reinforced last, with that one's texts.
pub open spec fn stands_for(g: GroupSpec, own: Seq<Affinity>) -> bool {
    &&& own.len() > 0
    &&& g.member_ids == own.map_values(|a: Affinity| a.id)
    &&& forall|k: int|
        0 <= k < own.len() ==> kept_count((#[trigger] own[k]).reinforcement_count)
            <= g.reinforcement_count
    &&& exists|k: int|
        0 <= k < own.len() && kept_count((#[trigger] own[k]).reinforcement_count)
            == g.reinforcement_count
    &&& forall|k: int|
        0 <= k < own.len() ==> {
            &&& no_later(
                (#[trigger] own[k]).last_reinforced_at.time->0,
                g.last_reinforced_at.time->0,
            )
            &&& no_later(own[k].updated_at.time->0, g.updated_at.time->0)
            &&& no_later(g.created_at.time->0, own[k].created_at.time->0)
        }
    &&& exists|k: int|
        0 <= k < own.len() && (#[trigger] own[k]).last_reinforced_at == g.last_reinforced_at
    &&& exists|k: int| 0 <= k < own.len() && (#[trigger] own[k]).updated_at == g.updated_at
    &&& exists|k: int| 0 <= k < own.len() && (#[trigger] own[k]).created_at == g.created_at
    &&& exists|k: int|
        0 <= k < own.len() && (#[trigger] own[k]).id == g.survivor_id && own[k].raw_query_text
            == g.raw_query_text && own[k].effective_query_text == g.effective_query_text
            && own[k].last_reinforced_at.time->0 == g.last_reinforced_at.time->0
    &&& own.len() == 2 && own[0].id != own[1].id ==> g.survivor_id == if is_latest(
        own[0],
        own[1],
    ) {
        own[0].id
    } else {
        own[1].id
    }
    &&& own.len() == 1 ==> g.updated_at == own[0].updated_at && g.survivor_id == own[0].id
}

/// Which of `groups` is for that query and place, where there is one.
spec fn is_group(
    g: GroupSpec,
    hash: Seq<char>,
    entry: Id,
    block: Option<Id>,
    chunk: Option<Id>,
) -> bool {
    g.query_hash == hash && g.entry_id == entry && g.block_id == block && g.chunk_id == chunk
}

proof fn lemma_joined(g: GroupSpec, own: Seq<Affinity>, row: Affinity)
    requires
        stands_for(g, own),
        reembedding::unreadable(row) is None,
    ensures
        stands_for(g.joined(row), own.push(row)),
{
    let all = own.push(row);
    let h = g.joined(row);
    assert(all[own.len() as int] == row);
    assert(h.member_ids =~= all.map_values(|a: Affinity| a.id));
    assert forall|k: int| 0 <= k < own.len() implies #[trigger] all[k] == own[k] by {}
    let a = choose|k: int|
        0 <= k < own.len() && kept_count((#[trigger] own[k]).reinforcement_count)
            == g.reinforcement_count;
    let b = choose|k: int|
        0 <= k < own.len() && (#[trigger] own[k]).last_reinforced_at == g.last_reinforced_at;
    let c = choose|k: int| 0 <= k < own.len() && (#[trigger] own[k]).updated_at == g.updated_at;
    let d = choose|k: int| 0 <= k < own.len() && (#[trigger] own[k]).created_at == g.created_at;
    let e = choose|k: int|
        0 <= k < own.len() && (#[trigger] own[k]).id == g.survivor_id && own[k].raw_query_text
            == g.raw_query_text && own[k].effective_query_text == g.effective_query_text
            && own[k].last_reinforced_at.time->0 == g.last_reinforced_at.time->0;
    assert(all[a] == own[a] && all[b] == own[b] && all[c] == own[c] && all[d] == own[d] && all[e]
        == own[e]);
}

proof fn lemma_first(row: Affinity)
    requires
        reembedding::unreadable(row) is None,
    ensures
        stands_for(GroupSpec::of(row), seq![row]),
{
    let own = seq![row];
    assert(own[0] == row);
    assert(GroupSpec::of(row).member_ids =~= own.map_values(|a: Affinity| a.id));
}

proof fn lemma_group_for(groups: Seq<GroupSpec>, row: Affinity, n: nat)
    requires
        n <= groups.len(),
    ensures
        match reembedding::group_for(groups, row, n) {
            Some(i) => 0 <= i < n && is_group(
                groups[i],
                row.query_hash@,
                row.entry_id,
                row.block_id,
                row.chunk_id,
            ),
            None => forall|i: int|
                0 <= i < n ==> !is_group(
                    #[trigger] groups[i],
                    row.query_hash@,
                    row.entry_id,
                    row.block_id,
                    row.chunk_id,
                ),
        },
    decreases n,
{
    if n > 0 {
        lemma_group_for(groups, row, (n - 1) as nat);
    }
}

proof fn lemma_groups(
    rows: Seq<Affinity>,
    n: nat,
    hash: Seq<char>,
    entry: Id,
    block: Option<Id>,
    chunk: Option<Id>,
)
    requires
        n <= rows.len(),
        reembedding::groups_of(rows, n) is Ok,
    ensures
        ({
            let groups = reembedding::groups_of(rows, n)->Ok_0;
            let own = examples_of(rows.take(n as int), hash, entry, block, chunk);
            &&& own.len() > 0 ==> exists|i: int|
                0 <= i < groups.len() && is_group(#[trigger] groups[i], hash, entry, block, chunk)
            &&& forall|i: int|
                0 <= i < groups.len() && is_group(
                    #[trigger] groups[i],
                    hash,
                    entry,
                    block,
                    chunk,
                ) ==> stands_for(groups[i], own)
            &&& forall|i: int, j: int|
                0 <= i < j < groups.len() && is_group(#[trigger] groups[i], hash, entry, block, chunk)
                    ==> !is_group(#[trigger] groups[j], hash, entry, block, chunk)
        }),
    decreases n,
{
    let keep = is_of(hash, entry, block, chunk);
    if n == 0 {
        reveal(Seq::filter);
        assert(rows.take(0).filter(keep) =~= Seq::empty());
    } else {
        let m = (n - 1) as nat;
        let row = rows[n - 1];
        lemma_groups(rows, m, hash, entry, block, chunk);
        signals::lemma_filter_take(rows, n - 1, keep);
        let before = reembedding::groups_of(rows, m)->Ok_0;
        let groups = reembedding::groups_of(rows, n)->Ok_0;
        let own = examples_of(rows.take(m as int), hash, entry, block, chunk);
        lemma_group_for(before, row, before.len());
        match reembedding::group_for(before, row, before.len()) {
            Some(at) => {
                assert forall|i: int| 0 <= i < groups.len() && i != at implies #[trigger] groups[i]
                    == before[i] by {}
                assert(is_group(groups[at], hash, entry, block, chunk) == is_group(
                    before[at],
                    hash,
                    entry,
                    block,
                    chunk,
                ));
                if keep(row) {
                    assert(is_group(before[at], hash, entry, block, chunk));
                    lemma_joined(before[at], own, row);
                } else {
                    assert(!is_group(before[at], hash, entry, block, chunk));
                    if own.len() > 0 {
                        let i = choose|i: int|
                            0 <= i < before.len() && is_group(
                                #[trigger] before[i],
                                hash,
                                entry,
                                block,
                                chunk,
                            );
                        assert(groups[i] == before[i]);
                    }
                }
            },
            None => {
                let last = groups[before.len() as int];
                assert(last == GroupSpec::of(row));
                assert forall|i: int| 0 <= i < before.len() implies #[trigger] groups[i]
                    == before[i] by {}
                if keep(row) {
                    assert(is_group(last, hash, entry, block, chunk));
                    if own.len() > 0 {
                        let i = choose|i: int|
                            0 <= i < before.len() && is_group(
                                #[trigger] before[i],
                                hash,
                                entry,
                                block,
                                chunk,
                            );
                        assert(!is_group(
                            before[i],
                            row.query_hash@,
                            row.entry_id,
                            row.block_id,
                            row.chunk_id,
                        ));
                    }
                    assert(own.len() == 0);
                    assert(own.push(row) =~= seq![row]);
                    lemma_first(row);
                } else if own.len() > 0 {
                    let i = choose|i: int|
                        0 <= i < before.len() && is_group(
                            #[trigger] before[i],
                            hash,
                            entry,
                            block,
                            chunk,
                        );
                    assert(groups[i] == before[i]);
                }
            },
        }
    }
}

proof fn lemma_sorted_members(groups: Seq<GroupSpec>, n: nat)
    requires
        n <= groups.len(),
    ensures
        reembedding::sorted_groups(groups, n).to_multiset() == groups.take(n as int).to_multiset(),
        reembedding::sorted_groups(groups, n).len() == n,
    decreases n,
{
    if n == 0 {
        assert(groups.take(0) =~= Seq::empty());
    } else {
        lemma_sorted_members(groups, (n - 1) as nat);
        let before = reembedding::sorted_groups(groups, (n - 1) as nat);
        let g = groups[n - 1];
        lemma_place(before, g.survivor_id, before.len());
        vstd::seq_lib::to_multiset_insert(
            before,
            reembedding::place_of(before, g.survivor_id, before.len()),
            g,
        );
        vstd::seq_lib::to_multiset_build(groups.take(n - 1), g);
        assert(groups.take(n as int) =~= groups.take(n - 1).push(g));
    }
}

proof fn lemma_place(sorted: Seq<GroupSpec>, id: Id, n: nat)
    requires
        n <= sorted.len(),
    ensures
        0 <= reembedding::place_of(sorted, id, n) <= n,
    decreases n,
{
    if n > 0 {
        lemma_place(sorted, id, (n - 1) as nat);
    }
}

/// Examples are gathered by query and place: each of them is in the group of its
/// query and place, and a group is what all of its examples come to.
pub proof fn law_groups_stand_for_their_examples(
    rows: Seq<Affinity>,
    hash: Seq<char>,
    entry: Id,
    block: Option<Id>,
    chunk: Option<Id>,
)
    ensures
        reembedding::reembedding_groups(rows) matches Ok(groups) ==> {
            let own = examples_of(rows, hash, entry, block, chunk);
            &&& own.len() > 0 ==> exists|i: int|
                0 <= i < groups.len() && (#[trigger] groups[i]).query_hash == hash
                    && groups[i].entry_id == entry && groups[i].block_id == block
                    && groups[i].chunk_id == chunk
            &&& forall|i: int|
                0 <= i < groups.len() && (#[trigger] groups[i]).query_hash == hash
                    && groups[i].entry_id == entry && groups[i].block_id == block
                    && groups[i].chunk_id == chunk ==> stands_for(groups[i], own)
        },
{
    if let Ok(groups) = reembedding::reembedding_groups(rows) {
        let raw = reembedding::groups_of(rows, rows.len())->Ok_0;
        lemma_groups(rows, rows.len(), hash, entry, block, chunk);
        assert(rows.take(rows.len() as int) =~= rows);
        lemma_sorted_members(raw, raw.len());
        assert(raw.take(raw.len() as int) =~= raw);
        let own = examples_of(rows, hash, entry, block, chunk);
        if own.len() > 0 {
            let i = choose|i: int|
                0 <= i < raw.len() && is_group(#[trigger] raw[i], hash, entry, block, chunk);
            vstd::seq_lib::to_multiset_contains(raw, raw[i]);
            vstd::seq_lib::to_multiset_contains(groups, raw[i]);
            let j = choose|j: int| 0 <= j < groups.len() && groups[j] == raw[i];
            assert(groups[j].query_hash == hash);
        }
        assert forall|i: int|
            0 <= i < groups.len() && (#[trigger] groups[i]).query_hash == hash
                && groups[i].entry_id == entry && groups[i].block_id == block && groups[i].chunk_id
                == chunk implies stands_for(groups[i], own) by {
            vstd::seq_lib::to_multiset_contains(groups, groups[i]);
            vstd::seq_lib::to_multiset_contains(raw, groups[i]);
            let j = choose|j: int| 0 <= j < raw.len() && raw[j] == groups[i];
            assert(is_group(raw[j], hash, entry, block, chunk));
        }
    }
}

proof fn lemma_unreadable(rows: Seq<Affinity>, n: nat)
    requires
        n <= rows.len(),
    ensures
        reembedding::groups_of(rows, n) is Ok <==> forall|i: int|
            0 <= i < n ==> (#[trigger] rows[i]).last_reinforced_at.time is Some
                && rows[i].created_at.time is Some && rows[i].updated_at.time is Some,
    decreases n,
{
    if n > 0 {
        lemma_unreadable(rows, (n - 1) as nat);
    }
}

/// Grouping fails exactly where a time of an example cannot be read.
pub proof fn law_grouping_needs_readable_times(rows: Seq<Affinity>)
    ensures
        reembedding::reembedding_groups(rows) is Ok <==> forall|i: int|
            0 <= i < rows.len() ==> (#[trigger] rows[i]).last_reinforced_at.time is Some
                && rows[i].created_at.time is Some && rows[i].updated_at.time is Some,
{
    lemma_unreadable(rows, rows.len());
}

proof fn lemma_supplied(vectors: Supplied, id: Id, n: nat)
    requires
        n <= vectors.len(),
    ensures
        match reembedding::supplied_at(vectors, id, n) {
            Some(i) => 0 <= i < n && vectors[i].0 == id,
            None => forall|i: int| 0 <= i < n ==> (#[trigger] vectors[i]).0 != id,
        },
    decreases n,
{
    if n > 0 {
        lemma_supplied(vectors, id, (n - 1) as nat);
    }
}

/// The first `n` vectors have the dimension, only finite numbers, and
/// identifiers of their own.
pub open spec fn are_sound(vectors: Supplied, dim: nat, n: nat) -> bool {
    &&& forall|i: int|
        0 <= i < n ==> (#[trigger] vectors[i]).1.len() == dim
    &&& forall|i: int, j: int|
        0 <= i < n && 0 <= j < vectors[i].1.len() ==> {
            let x = #[trigger] vectors[i].1[j];
            x < 0x7f80_0000 || 0x8000_0000 <= x < 0xff80_0000
        }
    &&& forall|i: int, j: int|
        0 <= i < j < n ==> (#[trigger] vectors[i]).0 != (#[trigger] vectors[j]).0
}

proof fn lemma_vector_fault(vectors: Supplied, dim: nat, n: nat)
    requires
        n <= vectors.len(),
    ensures
        reembedding::vector_fault(vectors, dim, n) is None <==> are_sound(vectors, dim, n),
    decreases n,
{
    if n > 0 {
        let m = (n - 1) as nat;
        lemma_vector_fault(vectors, dim, m);
        lemma_supplied(vectors, vectors[n - 1].0, m);
        let last = vectors[n - 1].1;
        if reembedding::vector_fault(vectors, dim, n) is None {
            assert(are_sound(vectors, dim, m));
            assert forall|i: int, j: int| 0 <= i < n && 0 <= j < vectors[i].1.len() implies {
                let x = #[trigger] vectors[i].1[j];
                x < 0x7f80_0000 || 0x8000_0000 <= x < 0xff80_0000
            } by {
                if i == n - 1 {
                    assert(float_bits::finite32(last[j]));
                }
            }
        }
        if are_sound(vectors, dim, n) {
            assert(are_sound(vectors, dim, m));
            assert(vectors[n - 1].1.len() == dim);
            assert forall|j: int| 0 <= j < last.len() implies float_bits::finite32(
                #[trigger] last[j],
            ) by {
                assert(vectors[n - 1].1[j] == last[j]);
            }
            if let Some(i) = reembedding::supplied_at(vectors, vectors[n - 1].0, m) {
                assert(vectors[i].0 != vectors[n - 1].0);
            }
        }
    }
}

/// A vector for the group's survivor stands at `v`.
pub open spec fn is_for(vectors: Supplied, g: GroupSpec, v: int) -> bool {
    0 <= v < vectors.len() && vectors[v].0 == g.survivor_id
}

/// Each group's survivor has a vector.
pub open spec fn all_supplied(vectors: Supplied, groups: Seq<GroupSpec>) -> bool {
    forall|i: int| 0 <= i < groups.len() ==> is_supplied(vectors, #[trigger] groups[i])
}

/// The group's survivor has a vector.
pub open spec fn is_supplied(vectors: Supplied, g: GroupSpec) -> bool {
    exists|v: int| is_for(vectors, g, v)
}

proof fn lemma_all_supplied(vectors: Supplied, groups: Seq<GroupSpec>)
    ensures
        reembedding::vectors_match(groups, vectors) <==> groups.len() == vectors.len()
            && all_supplied(vectors, groups),
{
    if reembedding::vectors_match(groups, vectors) {
        assert forall|i: int| 0 <= i < groups.len() implies is_supplied(
            vectors,
            #[trigger] groups[i],
        ) by {
            let id = groups[i].survivor_id;
            lemma_supplied(vectors, id, vectors.len());
            let v = reembedding::supplied_at(vectors, id, vectors.len())->0;
            assert(is_for(vectors, groups[i], v));
        }
        assert(all_supplied(vectors, groups));
    }
    if groups.len() == vectors.len() && all_supplied(vectors, groups) {
        assert forall|i: int| 0 <= i < groups.len() implies reembedding::supplied_at(
            vectors,
            (#[trigger] groups[i]).survivor_id,
            vectors.len(),
        ) is Some by {
            assert(is_supplied(vectors, groups[i]));
            let v = choose|v: int| is_for(vectors, groups[i], v);
            lemma_supplied(vectors, groups[i].survivor_id, vectors.len());
            if reembedding::supplied_at(
                vectors,
                groups[i].survivor_id,
                vectors.len(),
            ) is None {
                assert(vectors[v].0 != groups[i].survivor_id);
            }
        }
        assert(reembedding::vectors_match(groups, vectors));
    }
}

/// Vectors are replaced only for a named model and a dimension, with sound
/// vectors, where nothing has changed meanwhile, and where they are exactly the
/// survivors'. What is stored then is each group's survivor, with what the
/// group keeps, the new model and dimension, and the vector that was supplied
/// for it.
pub proof fn law_replacement_is_what_was_supplied(
    rows: Seq<Affinity>,
    model: String,
    dim: usize,
    actual: Seq<char>,
    expected: Seq<char>,
    vectors: Supplied,
)
    ensures
        ({
            let r = reembedding::replaced(rows, model, dim, actual, expected, vectors);
            let groups = reembedding::reembedding_groups(rows);
            &&& r is Ok <==> {
                &&& model@.len() > 0
                &&& dim > 0
                &&& are_sound(vectors, dim as nat, vectors.len())
                &&& actual == expected
                &&& groups is Ok
                &&& groups->Ok_0.len() == vectors.len()
                &&& all_supplied(vectors, groups->Ok_0)
            }
            &&& r matches Ok(after) ==> {
                &&& after.affinities.len() == groups->Ok_0.len()
                &&& after.vectors.len() == groups->Ok_0.len()
                &&& forall|i: int|
                    0 <= i < groups->Ok_0.len() ==> is_renewed(
                        groups->Ok_0[i],
                        #[trigger] after.affinities[i],
                        model,
                        dim,
                    )
                &&& forall|i: int, v: int|
                    #![trigger is_for(vectors, groups->Ok_0[i], v)]
                    0 <= i < groups->Ok_0.len() && is_for(vectors, groups->Ok_0[i], v)
                        ==> after.vectors[i] == (
                        vectors[v].0,
                        float_bits::vector_bytes(vectors[v].1),
                    )
            }
        }),
{
    let r = reembedding::replaced(rows, model, dim, actual, expected, vectors);
    lemma_vector_fault(vectors, dim as nat, vectors.len());
    if let Ok(groups) = reembedding::reembedding_groups(rows) {
        lemma_all_supplied(vectors, groups);
        if let Ok(after) = r {
            assert forall|i: int, v: int|
                #![trigger is_for(vectors, groups[i], v)]
                0 <= i < groups.len() && is_for(vectors, groups[i], v) implies after.vectors[i] == (
                vectors[v].0,
                float_bits::vector_bytes(vectors[v].1),
            ) by {
                lemma_supplied(vectors, groups[i].survivor_id, vectors.len());
                let x = reembedding::supplied_at(
                    vectors,
                    groups[i].survivor_id,
                    vectors.len(),
                )->0;
                if x < v {
                    assert(vectors[x].0 != vectors[v].0);
                } else if v < x {
                    assert(vectors[v].0 != vectors[x].0);
                }
            }
        }
    }
}

/// The example has what its group keeps, and the new model and dimension.
pub open spec fn is_renewed(g: GroupSpec, a: Affinity, model: String, dim: usize) -> bool {
    &&& a.raw_query_text == g.raw_query_text
    &&& a.effective_query_text == g.effective_query_text
    &&& a.embedding_model == model
    &&& dim <= i64::MAX ==> a.embedding_dim == dim
    &&& a.reinforcement_count == g.reinforcement_count
    &&& a.last_reinforced_at == g.last_reinforced_at
    &&& a.created_at == g.created_at
    &&& a.updated_at == g.updated_at
}

/// The fingerprint is that of the snapshot, and examples that say the same have
/// the same snapshot.
pub proof fn law_same_examples_have_one_fingerprint(a: Seq<Affinity>, b: Seq<Affinity>)
    requires
        a.len() == b.len(),
        forall|i: int|
            0 <= i < a.len() ==> reembedding::same_content(#[trigger] a[i], #[trigger] b[i]),
    ensures
        reembedding::snapshot_bytes(a) == reembedding::snapshot_bytes(b),
        reembedding::fingerprint_of(a) == hashing::blake3_hex_of(reembedding::snapshot_bytes(b)),
{
    lemma_same_rows(a, b, a.len());
}

proof fn lemma_same_rows(a: Seq<Affinity>, b: Seq<Affinity>, n: nat)
    requires
        n <= a.len(),
        a.len() == b.len(),
        forall|i: int|
            0 <= i < a.len() ==> reembedding::same_content(#[trigger] a[i], #[trigger] b[i]),
    ensures
        reembedding::rows_bytes(a, n) == reembedding::rows_bytes(b, n),
    decreases n,
{
    if n > 0 {
        lemma_same_rows(a, b, (n - 1) as nat);
        assert(reembedding::same_content(a[n - 1], b[n - 1]));
    }
}

/// What is to be embedded anew is a survivor's effective text, under its name.
pub proof fn law_effective_texts_are_embedded(
    input: crate::memory_model::AffinityEmbeddingInput,
    g: GroupSpec,
)
    requires
        reembedding::is_input_of(input, g),
    ensures
        input.affinity_id == g.survivor_id,
        input.effective_query_text@ == g.effective_query_text@,
{
}

} // verus!
