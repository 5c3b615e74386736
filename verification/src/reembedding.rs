//! Moving learned query examples to another embedding model.
//!
//! Without the model in their identity, several examples can lead to the same
//! target. Each such group keeps one: the latest, with the largest
//! reinforcement (never more than is ever stored), the latest times and the
//! earliest creation. Vectors are computed elsewhere and in between; a
//! fingerprint of the examples tells whether they changed meanwhile.
use vstd::prelude::*;
use vstd::string::*;
use vstd::utf8::*;

use crate::affinity_merge::{self, AffinityStore, StoreSpec};
use crate::error::{CoreError, CoreFault};
use crate::float_bits;
use crate::hashing;
use crate::ids::{self, Id};
use crate::memory_model::{AffinityEmbeddingInput, AffinityEmbeddingPlan};
use crate::signals::{self, Affinity, AffinityVector, Moment, Vectors};
use crate::text;

verus! {

/// The largest reinforcement that is ever stored.
pub const MAX_PERSISTED_REINFORCEMENTS: u8 = 3;

/// The examples that become one.
#[derive(Debug, Clone)]
pub struct Group {
    pub query_hash: String,
    pub entry_id: Id,
    pub block_id: Option<Id>,
    pub chunk_id: Option<Id>,
    pub survivor_id: Id,
    pub member_ids: Vec<Id>,
    pub raw_query_text: String,
    pub effective_query_text: String,
    pub reinforcement_count: u8,
    pub last_reinforced_at: Moment,
    pub created_at: Moment,
    pub updated_at: Moment,
}

/// The examples that become one, as mathematics.
#[verifier::ext_equal]
pub struct GroupSpec {
    pub query_hash: Seq<char>,
    pub entry_id: Id,
    pub block_id: Option<Id>,
    pub chunk_id: Option<Id>,
    pub survivor_id: Id,
    pub member_ids: Seq<Id>,
    pub raw_query_text: String,
    pub effective_query_text: String,
    pub reinforcement_count: u8,
    pub last_reinforced_at: Moment,
    pub created_at: Moment,
    pub updated_at: Moment,
}

impl View for Group {
    type V = GroupSpec;

    open spec fn view(&self) -> GroupSpec {
        GroupSpec {
            query_hash: self.query_hash@,
            entry_id: self.entry_id,
            block_id: self.block_id,
            chunk_id: self.chunk_id,
            survivor_id: self.survivor_id,
            member_ids: self.member_ids@,
            raw_query_text: self.raw_query_text,
            effective_query_text: self.effective_query_text,
            reinforcement_count: self.reinforcement_count,
            last_reinforced_at: self.last_reinforced_at,
            created_at: self.created_at,
            updated_at: self.updated_at,
        }
    }
}

/// The groups that a list holds.
pub open spec fn groups_view(groups: Seq<Group>) -> Seq<GroupSpec> {
    groups.map_values(|g: Group| g@)
}

pub open spec fn capped(count: u8) -> u8 {
    if count <= MAX_PERSISTED_REINFORCEMENTS {
        count
    } else {
        MAX_PERSISTED_REINFORCEMENTS
    }
}

impl GroupSpec {
    /// The example belongs to this group: same query, same target.
    pub open spec fn takes(self, row: Affinity) -> bool {
        &&& self.query_hash == row.query_hash@
        &&& self.entry_id == row.entry_id
        &&& self.block_id == row.block_id
        &&& self.chunk_id == row.chunk_id
    }

    /// The group of one example.
    pub open spec fn of(row: Affinity) -> GroupSpec {
        GroupSpec {
            query_hash: row.query_hash@,
            entry_id: row.entry_id,
            block_id: row.block_id,
            chunk_id: row.chunk_id,
            survivor_id: row.id,
            member_ids: seq![row.id],
            raw_query_text: row.raw_query_text,
            effective_query_text: row.effective_query_text,
            reinforcement_count: capped(row.reinforcement_count),
            last_reinforced_at: row.last_reinforced_at,
            created_at: row.created_at,
            updated_at: row.updated_at,
        }
    }

    /// The example is later than the group's survivor.
    pub open spec fn outlived_by(self, row: Affinity) -> bool {
        affinity_merge::later_example(
            row.last_reinforced_at.time->0,
            row.updated_at.time->0,
            row.id,
            self.last_reinforced_at.time->0,
            self.updated_at.time->0,
            self.survivor_id,
        )
    }

    /// The group with one more example.
    pub open spec fn joined(self, row: Affinity) -> GroupSpec {
        let later = self.outlived_by(row);
        GroupSpec {
            survivor_id: if later {
                row.id
            } else {
                self.survivor_id
            },
            member_ids: self.member_ids.push(row.id),
            raw_query_text: if later {
                row.raw_query_text
            } else {
                self.raw_query_text
            },
            effective_query_text: if later {
                row.effective_query_text
            } else {
                self.effective_query_text
            },
            reinforcement_count: capped(
                if row.reinforcement_count > self.reinforcement_count {
                    row.reinforcement_count
                } else {
                    self.reinforcement_count
                },
            ),
            last_reinforced_at: affinity_merge::latest(
                row.last_reinforced_at,
                self.last_reinforced_at,
            ),
            created_at: affinity_merge::earliest(row.created_at, self.created_at),
            updated_at: affinity_merge::latest(row.updated_at, self.updated_at),
            ..self
        }
    }
}

/// The first of an example's times whose text names no time.
pub open spec fn unreadable(row: Affinity) -> Option<Seq<char>> {
    if row.last_reinforced_at.time is None {
        Some(row.last_reinforced_at.text@)
    } else if row.created_at.time is None {
        Some(row.created_at.text@)
    } else if row.updated_at.time is None {
        Some(row.updated_at.text@)
    } else {
        None
    }
}

/// The group among the first `n` that takes an example.
pub open spec fn group_for(groups: Seq<GroupSpec>, row: Affinity, n: nat) -> Option<int>
    decreases n,
{
    if n == 0 {
        None
    } else {
        match group_for(groups, row, (n - 1) as nat) {
            Some(i) => Some(i),
            None => if groups[n - 1].takes(row) {
                Some(n - 1)
            } else {
                None
            },
        }
    }
}

/// The groups of the first `n` examples, in the order in which they appear.
pub open spec fn groups_of(rows: Seq<Affinity>, n: nat) -> Result<Seq<GroupSpec>, CoreFault>
    decreases n,
{
    if n == 0 {
        Ok(Seq::empty())
    } else {
        match groups_of(rows, (n - 1) as nat) {
            Err(e) => Err(e),
            Ok(groups) => {
                let row = rows[n - 1];
                match unreadable(row) {
                    Some(text) => Err(affinity_merge::time_fault(text)),
                    None => match group_for(groups, row, groups.len()) {
                        Some(i) => Ok(groups.update(i, groups[i].joined(row))),
                        None => Ok(groups.push(GroupSpec::of(row))),
                    },
                }
            },
        }
    }
}

/// Where a group goes in a list that is in the order of survivors.
pub open spec fn place_of(sorted: Seq<GroupSpec>, id: Id, n: nat) -> int
    decreases n,
{
    if n == 0 {
        0
    } else if sorted[n - 1].survivor_id <= id {
        n as int
    } else {
        place_of(sorted, id, (n - 1) as nat)
    }
}

/// The first `n` groups in the order of their survivors.
pub open spec fn sorted_groups(groups: Seq<GroupSpec>, n: nat) -> Seq<GroupSpec>
    decreases n,
{
    if n == 0 {
        Seq::empty()
    } else {
        let before = sorted_groups(groups, (n - 1) as nat);
        let g = groups[n - 1];
        before.insert(place_of(before, g.survivor_id, before.len()), g)
    }
}

/// The groups of all examples, in the order of their survivors.
pub open spec fn reembedding_groups(rows: Seq<Affinity>) -> Result<Seq<GroupSpec>, CoreFault> {
    match groups_of(rows, rows.len()) {
        Ok(groups) => Ok(sorted_groups(groups, groups.len())),
        Err(e) => Err(e),
    }
}

fn check_times(row: &Affinity) -> (r: Result<(), CoreError>)
    ensures
        match r {
            Ok(()) => unreadable(*row) is None,
            Err(e) => unreadable(*row) matches Some(t) && e@ == affinity_merge::time_fault(t),
        },
{
    if row.last_reinforced_at.time.is_none() {
        return Err(affinity_merge::time_error(row.last_reinforced_at.text.as_str()));
    }
    if row.created_at.time.is_none() {
        return Err(affinity_merge::time_error(row.created_at.text.as_str()));
    }
    if row.updated_at.time.is_none() {
        return Err(affinity_merge::time_error(row.updated_at.text.as_str()));
    }
    Ok(())
}

fn cap(count: u8) -> (r: u8)
    ensures
        r == capped(count),
{
    if count <= MAX_PERSISTED_REINFORCEMENTS {
        count
    } else {
        MAX_PERSISTED_REINFORCEMENTS
    }
}

impl Group {
    fn new(row: &Affinity) -> (g: Group)
        ensures
            g@ == GroupSpec::of(*row),
    {
        let mut member_ids: Vec<Id> = Vec::new();
        member_ids.push(row.id);
        let g = Group {
            query_hash: row.query_hash.clone(),
            entry_id: row.entry_id,
            block_id: row.block_id,
            chunk_id: row.chunk_id,
            survivor_id: row.id,
            member_ids,
            raw_query_text: row.raw_query_text.clone(),
            effective_query_text: row.effective_query_text.clone(),
            reinforcement_count: cap(row.reinforcement_count),
            last_reinforced_at: row.last_reinforced_at.copy(),
            created_at: row.created_at.copy(),
            updated_at: row.updated_at.copy(),
        };
        proof {
            assert(g@ =~= GroupSpec::of(*row));
        }
        g
    }

    fn takes(&self, row: &Affinity) -> (r: bool)
        ensures
            r == self@.takes(*row),
    {
        self.entry_id == row.entry_id && signals::same_id(self.block_id, row.block_id)
            && signals::same_id(self.chunk_id, row.chunk_id) && text::same(
            self.query_hash.as_str(),
            row.query_hash.as_str(),
        )
    }

    fn join(&mut self, row: &Affinity)
        requires
            unreadable(*row) is None,
            old(self)@.last_reinforced_at.time is Some,
            old(self)@.created_at.time is Some,
            old(self)@.updated_at.time is Some,
        ensures
            final(self)@ == old(self)@.joined(*row),
    {
        let later = affinity_merge::is_later_example(
            row.last_reinforced_at.time.unwrap(),
            row.updated_at.time.unwrap(),
            row.id,
            self.last_reinforced_at.time.unwrap(),
            self.updated_at.time.unwrap(),
            self.survivor_id,
        );
        self.member_ids.push(row.id);
        let larger: u8 = if row.reinforcement_count > self.reinforcement_count {
            row.reinforcement_count
        } else {
            self.reinforcement_count
        };
        self.reinforcement_count = cap(larger);
        self.last_reinforced_at = affinity_merge::latest_of(
            &row.last_reinforced_at,
            &self.last_reinforced_at,
        );
        self.created_at = affinity_merge::earliest_of(&row.created_at, &self.created_at);
        self.updated_at = affinity_merge::latest_of(&row.updated_at, &self.updated_at);
        if later {
            self.survivor_id = row.id;
            self.raw_query_text = row.raw_query_text.clone();
            self.effective_query_text = row.effective_query_text.clone();
        }
        proof {
            assert(self@ =~= old(self)@.joined(*row));
        }
    }
}

/// Every group's times can be read.
pub open spec fn readable_groups(groups: Seq<GroupSpec>) -> bool {
    forall|i: int|
        0 <= i < groups.len() ==> {
            let g = #[trigger] groups[i];
            g.last_reinforced_at.time is Some && g.created_at.time is Some && g.updated_at.time is Some
        }
}

fn find_group(groups: &Vec<Group>, row: &Affinity) -> (r: Option<usize>)
    ensures
        match r {
            Some(i) => i < groups.len() && group_for(groups_view(groups@), *row, groups@.len())
                == Some(i as int),
            None => group_for(groups_view(groups@), *row, groups@.len()) is None,
        },
{
    let ghost all = groups_view(groups@);
    let mut i: usize = 0;
    while i < groups.len()
        invariant
            i <= groups.len(),
            all == groups_view(groups@),
            group_for(all, *row, i as nat) is None,
        decreases groups.len() - i,
    {
        proof {
            assert(all[i as int] == groups@[i as int]@);
        }
        if groups[i].takes(row) {
            proof {
                lemma_group_for_stays(all, *row, (i + 1) as nat, all.len());
            }
            return Some(i);
        }
        i += 1;
    }
    None
}

proof fn lemma_group_for_stays(groups: Seq<GroupSpec>, row: Affinity, n: nat, m: nat)
    requires
        n <= m,
        group_for(groups, row, n) is Some,
    ensures
        group_for(groups, row, m) == group_for(groups, row, n),
    decreases m,
{
    if n < m {
        lemma_group_for_stays(groups, row, n, (m - 1) as nat);
    }
}

proof fn lemma_groups_err(rows: Seq<Affinity>, n: nat, m: nat)
    requires
        n <= m,
        groups_of(rows, n) is Err,
    ensures
        groups_of(rows, m) == groups_of(rows, n),
    decreases m,
{
    if n < m {
        lemma_groups_err(rows, n, (m - 1) as nat);
    }
}

/// The groups of the examples, one survivor each, in the order of survivors.
pub fn affinity_reembedding_groups(rows: &Vec<Affinity>) -> (r: Result<Vec<Group>, CoreError>)
    ensures
        match r {
            Ok(groups) => reembedding_groups(rows@) == Ok::<Seq<GroupSpec>, CoreFault>(
                groups_view(groups@),
            ),
            Err(e) => reembedding_groups(rows@) == Err::<Seq<GroupSpec>, CoreFault>(e@),
        },
{
    let mut groups: Vec<Group> = Vec::new();
    let mut i: usize = 0;
    proof {
        assert(groups_view(groups@) =~= Seq::empty());
    }
    while i < rows.len()
        invariant
            i <= rows.len(),
            groups_of(rows@, i as nat) == Ok::<Seq<GroupSpec>, CoreFault>(groups_view(groups@)),
            readable_groups(groups_view(groups@)),
        decreases rows.len() - i,
    {
        let row = &rows[i];
        let ghost before = groups_view(groups@);
        match check_times(row) {
            Err(e) => {
                proof {
                    lemma_groups_err(rows@, (i + 1) as nat, rows@.len());
                }
                return Err(e);
            },
            Ok(()) => {},
        }
        match find_group(&groups, row) {
            Some(k) => {
                proof {
                    assert(before[k as int] == groups@[k as int]@);
                }
                let mut g = groups.remove(k);
                g.join(row);
                let ghost joined = g@;
                groups.insert(k, g);
                proof {
                    assert(groups_view(groups@) =~= before.update(k as int, joined));
                }
            },
            None => {
                let g = Group::new(row);
                let ghost fresh = g@;
                groups.push(g);
                proof {
                    assert(groups_view(groups@) =~= before.push(fresh));
                }
            },
        }
        i += 1;
    }
    let mut sorted: Vec<Group> = Vec::new();
    let ghost all = groups_view(groups@);
    let ghost held = groups@;
    proof {
        assert(groups_view(sorted@) =~= Seq::empty());
    }
    for g in it: groups
        invariant
            it.seq() == held,
            all == groups_view(held),
            groups_view(sorted@) == sorted_groups(all, it.index() as nat),
    {
        let ghost before = groups_view(sorted@);
        proof {
            assert(all[it.index() as int] == g@);
        }
        let mut k: usize = sorted.len();
        while k > 0 && sorted[k - 1].survivor_id > g.survivor_id
            invariant
                k <= sorted.len(),
                before == groups_view(sorted@),
                place_of(before, g@.survivor_id, before.len()) == place_of(
                    before,
                    g@.survivor_id,
                    k as nat,
                ),
            decreases k,
        {
            proof {
                assert(before[k - 1] == sorted@[k - 1]@);
            }
            k -= 1;
        }
        proof {
            if k > 0 {
                assert(before[k - 1] == sorted@[k - 1]@);
            }
        }
        let ghost shown = g@;
        sorted.insert(k, g);
        proof {
            assert(groups_view(sorted@) =~= before.insert(k as int, shown));
        }
    }
    Ok(sorted)
}

/// A text with its length in front.
pub open spec fn text_bytes(s: Seq<char>) -> Seq<u8> {
    float_bits::le_bytes(text::byte_len(s), 8) + encode_utf8(s)
}

/// An optional identifier, marked as present or absent.
pub open spec fn optional_bytes(id: Option<Id>) -> Seq<u8> {
    match id {
        Some(id) => seq![1u8] + text_bytes(ids::text_of_id(id)),
        None => seq![0u8],
    }
}

/// A signed number in two's complement.
pub open spec fn signed_bytes(v: i64) -> Seq<u8> {
    float_bits::le_bytes(unsigned(v), 8)
}

/// The unsigned number with the same bits.
pub open spec fn unsigned(v: i64) -> nat {
    if v >= 0 {
        v as nat
    } else {
        (v + u64::MAX + 1) as nat
    }
}

/// Everything that matters of an example.
pub open spec fn row_bytes(a: Affinity) -> Seq<u8> {
    text_bytes(ids::text_of_id(a.id)) + text_bytes(a.query_hash@) + text_bytes(a.raw_query_text@)
        + text_bytes(a.effective_query_text@) + text_bytes(a.embedding_model@) + signed_bytes(
        a.embedding_dim,
    ) + text_bytes(ids::text_of_id(a.entry_id)) + optional_bytes(a.block_id) + optional_bytes(
        a.chunk_id,
    ) + seq![a.reinforcement_count] + text_bytes(a.last_reinforced_at.text@) + text_bytes(
        a.created_at.text@,
    ) + text_bytes(a.updated_at.text@)
}

/// The first `n` examples in a row.
pub open spec fn rows_bytes(rows: Seq<Affinity>, n: nat) -> Seq<u8>
    decreases n,
{
    if n == 0 {
        Seq::empty()
    } else {
        rows_bytes(rows, (n - 1) as nat) + row_bytes(rows[n - 1])
    }
}

/// What a fingerprint is taken of: a domain, the number of examples, and the
/// examples.
pub open spec fn snapshot_bytes(rows: Seq<Affinity>) -> Seq<u8> {
    encode_utf8("nomai-query-affinities-v1"@) + float_bits::le_bytes(rows.len(), 8) + rows_bytes(
        rows,
        rows.len(),
    )
}

/// The fingerprint of the examples.
pub open spec fn fingerprint_of(rows: Seq<Affinity>) -> Seq<char> {
    hashing::blake3_hex_of(snapshot_bytes(rows))
}

fn push_text(out: &mut Vec<u8>, s: &str)
    ensures
        final(out)@ == old(out)@ + text_bytes(s@),
{
    let bytes = s.as_bytes();
    let ghost start = out@;
    float_bits::push_le(out, bytes.len() as u64, 8);
    let ghost headed = out@;
    let mut i: usize = 0;
    proof {
        assert(headed + bytes@.take(0) =~= headed);
    }
    while i < bytes.len()
        invariant
            i <= bytes.len(),
            out@ == headed + bytes@.take(i as int),
        decreases bytes.len() - i,
    {
        out.push(bytes[i]);
        proof {
            assert(headed + bytes@.take(i + 1) =~= (headed + bytes@.take(i as int)).push(
                bytes@[i as int],
            ));
        }
        i += 1;
    }
    proof {
        assert(bytes@.take(i as int) =~= bytes@);
        assert(out@ =~= start + text_bytes(s@));
    }
}

fn push_optional(out: &mut Vec<u8>, id: Option<Id>)
    ensures
        final(out)@ == old(out)@ + optional_bytes(id),
{
    let ghost start = out@;
    match id {
        Some(id) => {
            out.push(1);
            let s = ids::id_text(id);
            push_text(out, s.as_str());
            proof {
                assert(out@ =~= start + optional_bytes(Some(id)));
            }
        },
        None => {
            out.push(0);
            proof {
                assert(out@ =~= start + optional_bytes(None));
            }
        },
    }
}

fn push_signed(out: &mut Vec<u8>, v: i64)
    ensures
        final(out)@ == old(out)@ + signed_bytes(v),
{
    let bits: u64 = if v >= 0 {
        v as u64
    } else {
        u64::MAX - ((-(v + 1)) as u64)
    };
    float_bits::push_le(out, bits, 8);
}

fn push_row(out: &mut Vec<u8>, a: &Affinity)
    ensures
        final(out)@ == old(out)@ + row_bytes(*a),
{
    let ghost start = out@;
    let id = ids::id_text(a.id);
    push_text(out, id.as_str());
    push_text(out, a.query_hash.as_str());
    push_text(out, a.raw_query_text.as_str());
    push_text(out, a.effective_query_text.as_str());
    push_text(out, a.embedding_model.as_str());
    push_signed(out, a.embedding_dim);
    let entry = ids::id_text(a.entry_id);
    push_text(out, entry.as_str());
    push_optional(out, a.block_id);
    push_optional(out, a.chunk_id);
    let ghost before = out@;
    out.push(a.reinforcement_count);
    proof {
        assert(out@ =~= before + seq![a.reinforcement_count]);
    }
    push_text(out, a.last_reinforced_at.text.as_str());
    push_text(out, a.created_at.text.as_str());
    push_text(out, a.updated_at.text.as_str());
    proof {
        assert(out@ =~= start + row_bytes(*a));
    }
}

/// The bytes that a fingerprint is taken of.
pub fn snapshot(rows: &Vec<Affinity>) -> (out: Vec<u8>)
    ensures
        out@ == snapshot_bytes(rows@),
{
    let mut out: Vec<u8> = Vec::new();
    let domain = "nomai-query-affinities-v1".as_bytes();
    let mut i: usize = 0;
    while i < domain.len()
        invariant
            i <= domain.len(),
            out@ == domain@.take(i as int),
        decreases domain.len() - i,
    {
        out.push(domain[i]);
        proof {
            assert(domain@.take(i + 1) =~= domain@.take(i as int).push(domain@[i as int]));
        }
        i += 1;
    }
    proof {
        assert(domain@.take(i as int) =~= domain@);
    }
    float_bits::push_le(&mut out, rows.len() as u64, 8);
    let ghost head = out@;
    let mut k: usize = 0;
    proof {
        assert(head + rows_bytes(rows@, 0) =~= head);
    }
    while k < rows.len()
        invariant
            k <= rows.len(),
            out@ == head + rows_bytes(rows@, k as nat),
        decreases rows.len() - k,
    {
        push_row(&mut out, &rows[k]);
        proof {
            assert(head + rows_bytes(rows@, k as nat) + row_bytes(rows@[k as int]) =~= head
                + rows_bytes(rows@, (k + 1) as nat));
        }
        k += 1;
    }
    out
}

/// Hash the complete state of the examples, which come in the order of their
/// identifiers.
pub fn affinity_reembedding_fingerprint(rows: &Vec<Affinity>) -> (s: String)
    ensures
        s@ == fingerprint_of(rows@),
{
    let bytes = snapshot(rows);
    hashing::blake3_hex(bytes.as_slice())
}

/// Every text is of a length that a machine can hold.
pub open spec fn sized(a: Affinity) -> bool {
    &&& text::byte_len(a.query_hash@) <= u64::MAX
    &&& text::byte_len(a.raw_query_text@) <= u64::MAX
    &&& text::byte_len(a.effective_query_text@) <= u64::MAX
    &&& text::byte_len(a.embedding_model@) <= u64::MAX
    &&& text::byte_len(a.last_reinforced_at.text@) <= u64::MAX
    &&& text::byte_len(a.created_at.text@) <= u64::MAX
    &&& text::byte_len(a.updated_at.text@) <= u64::MAX
}

/// Two examples that agree in everything that a fingerprint covers.
pub open spec fn same_content(a: Affinity, b: Affinity) -> bool {
    &&& a.id == b.id
    &&& a.query_hash@ == b.query_hash@
    &&& a.raw_query_text@ == b.raw_query_text@
    &&& a.effective_query_text@ == b.effective_query_text@
    &&& a.embedding_model@ == b.embedding_model@
    &&& a.embedding_dim == b.embedding_dim
    &&& a.entry_id == b.entry_id
    &&& a.block_id == b.block_id
    &&& a.chunk_id == b.chunk_id
    &&& a.reinforcement_count == b.reinforcement_count
    &&& a.last_reinforced_at.text@ == b.last_reinforced_at.text@
    &&& a.created_at.text@ == b.created_at.text@
    &&& a.updated_at.text@ == b.updated_at.text@
}

proof fn lemma_pow256_8()
    ensures
        float_bits::pow256(8) == u64::MAX + 1,
{
    reveal_with_fuel(float_bits::pow256, 9);
}

/// A fixed-width number in front is determined.
proof fn lemma_number_first(v: nat, w: nat, x: Seq<u8>, y: Seq<u8>)
    requires
        v <= u64::MAX,
        w <= u64::MAX,
        float_bits::le_bytes(v, 8) + x == float_bits::le_bytes(w, 8) + y,
    ensures
        v == w,
        x == y,
{
    lemma_pow256_8();
    float_bits::law_le_bytes_round_trip(v, 8);
    float_bits::law_le_bytes_round_trip(w, 8);
    let a = float_bits::le_bytes(v, 8);
    let b = float_bits::le_bytes(w, 8);
    assert((a + x).take(8) =~= a);
    assert((b + y).take(8) =~= b);
    assert((a + x).skip(8) =~= x);
    assert((b + y).skip(8) =~= y);
}

/// A text with its length in front is determined by what begins with it.
proof fn lemma_text_first(s: Seq<char>, t: Seq<char>, x: Seq<u8>, y: Seq<u8>)
    requires
        text::byte_len(s) <= u64::MAX,
        text::byte_len(t) <= u64::MAX,
        text_bytes(s) + x == text_bytes(t) + y,
    ensures
        s == t,
        x == y,
{
    let a = encode_utf8(s);
    let b = encode_utf8(t);
    let la = float_bits::le_bytes(a.len(), 8);
    let lb = float_bits::le_bytes(b.len(), 8);
    assert(text_bytes(s) + x =~= la + (a + x));
    assert(text_bytes(t) + y =~= lb + (b + y));
    lemma_number_first(a.len(), b.len(), a + x, b + y);
    assert((a + x).take(a.len() as int) =~= a);
    assert((b + y).take(b.len() as int) =~= b);
    assert((a + x).skip(a.len() as int) =~= x);
    assert((b + y).skip(b.len() as int) =~= y);
    text::lemma_encode_injective(s, t);
}

proof fn lemma_id_sized(id: Id)
    ensures
        text::byte_len(ids::text_of_id(id)) <= u64::MAX,
{
    ids::law_id_text_round_trip(id);
    lemma_byte_len_at_most(ids::text_of_id(id));
}

proof fn lemma_byte_len_at_most(s: Seq<char>)
    ensures
        text::byte_len(s) <= 4 * s.len(),
    decreases s.len(),
{
    if s.len() > 0 {
        lemma_byte_len_at_most(s.drop_last());
        assert(s =~= s.drop_last().push(s.last()));
        text::lemma_byte_len_push(s.drop_last(), s.last());
        text::lemma_char_width(s.last());
    }
}

proof fn lemma_id_first(a: Id, b: Id, x: Seq<u8>, y: Seq<u8>)
    requires
        text_bytes(ids::text_of_id(a)) + x == text_bytes(ids::text_of_id(b)) + y,
    ensures
        a == b,
        x == y,
{
    lemma_id_sized(a);
    lemma_id_sized(b);
    lemma_text_first(ids::text_of_id(a), ids::text_of_id(b), x, y);
    ids::law_id_text_round_trip(a);
    ids::law_id_text_round_trip(b);
}

proof fn lemma_optional_first(a: Option<Id>, b: Option<Id>, x: Seq<u8>, y: Seq<u8>)
    requires
        optional_bytes(a) + x == optional_bytes(b) + y,
    ensures
        a == b,
        x == y,
{
    let p = optional_bytes(a) + x;
    let q = optional_bytes(b) + y;
    assert(p[0] == q[0]);
    match (a, b) {
        (Some(i), Some(j)) => {
            assert(p.skip(1) =~= text_bytes(ids::text_of_id(i)) + x);
            assert(q.skip(1) =~= text_bytes(ids::text_of_id(j)) + y);
            lemma_id_first(i, j, x, y);
        },
        (None, None) => {
            assert(p.skip(1) =~= x);
            assert(q.skip(1) =~= y);
        },
        _ => {},
    }
}

/// An example's bytes and what follows them, with the first field split off
/// the rest again and again.
proof fn lemma_row_nested(a: Affinity, x: Seq<u8>)
    ensures
        row_bytes(a) + x == text_bytes(ids::text_of_id(a.id)) + (text_bytes(a.query_hash@) + (text_bytes(a.raw_query_text@) + (text_bytes(a.effective_query_text@) + (text_bytes(a.embedding_model@) + (signed_bytes(a.embedding_dim) + (text_bytes(ids::text_of_id(a.entry_id)) + (optional_bytes(a.block_id) + (optional_bytes(a.chunk_id) + (seq![a.reinforcement_count] + (text_bytes(a.last_reinforced_at.text@) + (text_bytes(a.created_at.text@) + (text_bytes(a.updated_at.text@) + x)))))))))))),
{
    let f0 = text_bytes(ids::text_of_id(a.id));
    let f1 = text_bytes(a.query_hash@);
    let f2 = text_bytes(a.raw_query_text@);
    let f3 = text_bytes(a.effective_query_text@);
    let f4 = text_bytes(a.embedding_model@);
    let f5 = signed_bytes(a.embedding_dim);
    let f6 = text_bytes(ids::text_of_id(a.entry_id));
    let f7 = optional_bytes(a.block_id);
    let f8 = optional_bytes(a.chunk_id);
    let f9 = seq![a.reinforcement_count];
    let f10 = text_bytes(a.last_reinforced_at.text@);
    let f11 = text_bytes(a.created_at.text@);
    let f12 = text_bytes(a.updated_at.text@);
    let p0 = f0;
    let p1 = p0 + f1;
    let p2 = p1 + f2;
    let p3 = p2 + f3;
    let p4 = p3 + f4;
    let p5 = p4 + f5;
    let p6 = p5 + f6;
    let p7 = p6 + f7;
    let p8 = p7 + f8;
    let p9 = p8 + f9;
    let p10 = p9 + f10;
    let p11 = p10 + f11;
    let p12 = p11 + f12;
    let r12 = f12 + x;
    let r11 = f11 + r12;
    let r10 = f10 + r11;
    let r9 = f9 + r10;
    let r8 = f8 + r9;
    let r7 = f7 + r8;
    let r6 = f6 + r7;
    let r5 = f5 + r6;
    let r4 = f4 + r5;
    let r3 = f3 + r4;
    let r2 = f2 + r3;
    let r1 = f1 + r2;
    vstd::seq_lib::lemma_concat_associative(p11, f12, x);
    vstd::seq_lib::lemma_concat_associative(p10, f11, r12);
    vstd::seq_lib::lemma_concat_associative(p9, f10, r11);
    vstd::seq_lib::lemma_concat_associative(p8, f9, r10);
    vstd::seq_lib::lemma_concat_associative(p7, f8, r9);
    vstd::seq_lib::lemma_concat_associative(p6, f7, r8);
    vstd::seq_lib::lemma_concat_associative(p5, f6, r7);
    vstd::seq_lib::lemma_concat_associative(p4, f5, r6);
    vstd::seq_lib::lemma_concat_associative(p3, f4, r5);
    vstd::seq_lib::lemma_concat_associative(p2, f3, r4);
    vstd::seq_lib::lemma_concat_associative(p1, f2, r3);
    vstd::seq_lib::lemma_concat_associative(p0, f1, r2);
}

proof fn lemma_row_first(a: Affinity, b: Affinity, x: Seq<u8>, y: Seq<u8>)
    requires
        sized(a),
        sized(b),
        row_bytes(a) + x == row_bytes(b) + y,
    ensures
        same_content(a, b),
        x == y,
{
    lemma_row_nested(a, x);
    lemma_row_nested(b, y);
    let a12 = text_bytes(a.updated_at.text@) + x;
    let a11 = text_bytes(a.created_at.text@) + a12;
    let a10 = text_bytes(a.last_reinforced_at.text@) + a11;
    let a9 = seq![a.reinforcement_count] + a10;
    let a8 = optional_bytes(a.chunk_id) + a9;
    let a7 = optional_bytes(a.block_id) + a8;
    let a6 = text_bytes(ids::text_of_id(a.entry_id)) + a7;
    let a5 = signed_bytes(a.embedding_dim) + a6;
    let a4 = text_bytes(a.embedding_model@) + a5;
    let a3 = text_bytes(a.effective_query_text@) + a4;
    let a2 = text_bytes(a.raw_query_text@) + a3;
    let a1 = text_bytes(a.query_hash@) + a2;
    let b12 = text_bytes(b.updated_at.text@) + y;
    let b11 = text_bytes(b.created_at.text@) + b12;
    let b10 = text_bytes(b.last_reinforced_at.text@) + b11;
    let b9 = seq![b.reinforcement_count] + b10;
    let b8 = optional_bytes(b.chunk_id) + b9;
    let b7 = optional_bytes(b.block_id) + b8;
    let b6 = text_bytes(ids::text_of_id(b.entry_id)) + b7;
    let b5 = signed_bytes(b.embedding_dim) + b6;
    let b4 = text_bytes(b.embedding_model@) + b5;
    let b3 = text_bytes(b.effective_query_text@) + b4;
    let b2 = text_bytes(b.raw_query_text@) + b3;
    let b1 = text_bytes(b.query_hash@) + b2;
    lemma_id_first(a.id, b.id, a1, b1);
    lemma_text_first(a.query_hash@, b.query_hash@, a2, b2);
    lemma_text_first(a.raw_query_text@, b.raw_query_text@, a3, b3);
    lemma_text_first(a.effective_query_text@, b.effective_query_text@, a4, b4);
    lemma_text_first(a.embedding_model@, b.embedding_model@, a5, b5);
    lemma_number_first(unsigned(a.embedding_dim), unsigned(b.embedding_dim), a6, b6);
    lemma_id_first(a.entry_id, b.entry_id, a7, b7);
    lemma_optional_first(a.block_id, b.block_id, a8, b8);
    lemma_optional_first(a.chunk_id, b.chunk_id, a9, b9);
    lemma_byte_first(a.reinforcement_count, b.reinforcement_count, a10, b10);
    lemma_text_first(a.last_reinforced_at.text@, b.last_reinforced_at.text@, a11, b11);
    lemma_text_first(a.created_at.text@, b.created_at.text@, a12, b12);
    lemma_text_first(a.updated_at.text@, b.updated_at.text@, x, y);
}

proof fn lemma_byte_first(a: u8, b: u8, x: Seq<u8>, y: Seq<u8>)
    requires
        seq![a] + x == seq![b] + y,
    ensures
        a == b,
        x == y,
{
    assert((seq![a] + x)[0] == a);
    assert((seq![b] + y)[0] == b);
    assert((seq![a] + x).skip(1) =~= x);
    assert((seq![b] + y).skip(1) =~= y);
}

/// The bytes of the examples from `n` on.
spec fn tail_bytes(rows: Seq<Affinity>, n: nat) -> Seq<u8>
    decreases rows.len() - n,
{
    if n >= rows.len() {
        Seq::empty()
    } else {
        row_bytes(rows[n as int]) + tail_bytes(rows, n + 1)
    }
}

proof fn lemma_tail(rows: Seq<Affinity>, n: nat)
    requires
        n <= rows.len(),
    ensures
        rows_bytes(rows, n) + tail_bytes(rows, n) == rows_bytes(rows, rows.len()),
    decreases rows.len() - n,
{
    if n == rows.len() {
        assert(rows_bytes(rows, n) + tail_bytes(rows, n) =~= rows_bytes(rows, n));
    } else {
        lemma_tail(rows, n + 1);
        assert(rows_bytes(rows, n) + tail_bytes(rows, n) =~= rows_bytes(rows, n + 1) + tail_bytes(
            rows,
            n + 1,
        ));
    }
}

proof fn lemma_tails_equal(a: Seq<Affinity>, b: Seq<Affinity>, n: nat)
    requires
        a.len() == b.len(),
        n <= a.len(),
        forall|i: int| 0 <= i < a.len() ==> sized(#[trigger] a[i]),
        forall|i: int| 0 <= i < b.len() ==> sized(#[trigger] b[i]),
        tail_bytes(a, n) == tail_bytes(b, n),
    ensures
        forall|i: int| n <= i < a.len() ==> same_content(#[trigger] a[i], b[i]),
    decreases a.len() - n,
{
    if n < a.len() {
        lemma_row_first(a[n as int], b[n as int], tail_bytes(a, n + 1), tail_bytes(b, n + 1));
        lemma_tails_equal(a, b, n + 1);
    }
}

/// Length-delimited fields cannot run into each other: two states of the
/// examples with the same bytes are the same state, field by field.
pub proof fn law_snapshots_do_not_collide(a: Seq<Affinity>, b: Seq<Affinity>)
    requires
        a.len() <= u64::MAX,
        b.len() <= u64::MAX,
        forall|i: int| 0 <= i < a.len() ==> sized(#[trigger] a[i]),
        forall|i: int| 0 <= i < b.len() ==> sized(#[trigger] b[i]),
        snapshot_bytes(a) == snapshot_bytes(b),
    ensures
        a.len() == b.len(),
        forall|i: int| 0 <= i < a.len() ==> same_content(#[trigger] a[i], b[i]),
{
    let domain = encode_utf8("nomai-query-affinities-v1"@);
    let x = rows_bytes(a, a.len());
    let y = rows_bytes(b, b.len());
    let la = float_bits::le_bytes(a.len(), 8);
    let lb = float_bits::le_bytes(b.len(), 8);
    assert(snapshot_bytes(a).skip(domain.len() as int) =~= la + x);
    assert(snapshot_bytes(b).skip(domain.len() as int) =~= lb + y);
    lemma_number_first(a.len(), b.len(), x, y);
    lemma_tail(a, 0);
    lemma_tail(b, 0);
    assert(rows_bytes(a, 0) + tail_bytes(a, 0) =~= tail_bytes(a, 0));
    assert(rows_bytes(b, 0) + tail_bytes(b, 0) =~= tail_bytes(b, 0));
    lemma_tails_equal(a, b, 0);
}

/// What a group asks of the provider.
pub open spec fn is_input_of(input: AffinityEmbeddingInput, g: GroupSpec) -> bool {
    input.affinity_id == g.survivor_id && input.effective_query_text == g.effective_query_text
}

/// Plan provider work for every example that will survive a change of model.
/// Nothing is changed, so a provider failure leaves all examples for a retry.
pub fn list_affinities_for_reembedding(rows: &Vec<Affinity>) -> (r: Result<
    AffinityEmbeddingPlan,
    CoreError,
>)
    ensures
        match r {
            Ok(plan) => {
                &&& plan.fingerprint@ == fingerprint_of(rows@)
                &&& reembedding_groups(rows@) matches Ok(groups) && plan.inputs@.len()
                    == groups.len() && forall|i: int|
                    0 <= i < groups.len() ==> is_input_of(#[trigger] plan.inputs@[i], groups[i])
            },
            Err(e) => reembedding_groups(rows@) == Err::<Seq<GroupSpec>, CoreFault>(e@),
        },
{
    let fingerprint = affinity_reembedding_fingerprint(rows);
    let groups = match affinity_reembedding_groups(rows) {
        Ok(groups) => groups,
        Err(e) => {
            return Err(e);
        },
    };
    let ghost all = groups_view(groups@);
    let mut inputs: Vec<AffinityEmbeddingInput> = Vec::new();
    let mut i: usize = 0;
    while i < groups.len()
        invariant
            i <= groups.len(),
            all == groups_view(groups@),
            inputs.len() == i,
            forall|k: int| 0 <= k < i ==> is_input_of(#[trigger] inputs@[k], all[k]),
        decreases groups.len() - i,
    {
        proof {
            assert(all[i as int] == groups@[i as int]@);
        }
        inputs.push(
            AffinityEmbeddingInput {
                affinity_id: groups[i].survivor_id,
                effective_query_text: groups[i].effective_query_text.clone(),
            },
        );
        i += 1;
    }
    Ok(AffinityEmbeddingPlan { inputs, fingerprint })
}

/// Supplied vectors as mathematics.
pub type Supplied = Seq<(Id, Seq<u32>)>;

pub open spec fn supplied_of(vectors: Seq<(Id, Vec<u32>)>) -> Supplied {
    vectors.map_values(|v: (Id, Vec<u32>)| (v.0, v.1@))
}

/// The position of the first of the first `n` vectors that is for `id`.
pub open spec fn supplied_at(vectors: Supplied, id: Id, n: nat) -> Option<int>
    decreases n,
{
    if n == 0 {
        None
    } else {
        match supplied_at(vectors, id, (n - 1) as nat) {
            Some(i) => Some(i),
            None => if vectors[n - 1].0 == id {
                Some(n - 1)
            } else {
                None
            },
        }
    }
}

/// Every number of the vector is finite.
pub open spec fn all_finite(vector: Seq<u32>) -> bool {
    forall|i: int| 0 <= i < vector.len() ==> float_bits::finite32(#[trigger] vector[i])
}

/// The first thing that is wrong with the first `n` vectors: a length, a
/// number that is not finite, or a second vector for one example.
pub open spec fn vector_fault(vectors: Supplied, dim: nat, n: nat) -> Option<Seq<char>>
    decreases n,
{
    if n == 0 {
        None
    } else {
        match vector_fault(vectors, dim, (n - 1) as nat) {
            Some(m) => Some(m),
            None => {
                let (id, vector) = vectors[n - 1];
                if vector.len() != dim {
                    Some(
                        "affinity vector "@ + ids::text_of_id(id) + " has dimension "@
                            + text::decimal(vector.len()) + ", expected "@ + text::decimal(dim),
                    )
                } else if !all_finite(vector) {
                    Some(
                        "affinity vector "@ + ids::text_of_id(id)
                            + " contains a non-finite value"@,
                    )
                } else if supplied_at(vectors, id, (n - 1) as nat) is Some {
                    Some("duplicate affinity vector: "@ + ids::text_of_id(id))
                } else {
                    None
                }
            },
        }
    }
}

/// Every group has a vector, and there is none besides.
pub open spec fn vectors_match(groups: Seq<GroupSpec>, vectors: Supplied) -> bool {
    &&& groups.len() == vectors.len()
    &&& forall|i: int|
        0 <= i < groups.len() ==> supplied_at(
            vectors,
            (#[trigger] groups[i]).survivor_id,
            vectors.len(),
        ) is Some
}

/// The example that a group leaves, on the new model.
pub open spec fn survivor_row(
    rows: Seq<Affinity>,
    g: GroupSpec,
    model: String,
    dim: usize,
) -> Affinity {
    Affinity {
        raw_query_text: g.raw_query_text,
        effective_query_text: g.effective_query_text,
        embedding_model: model,
        embedding_dim: dim as i64,
        reinforcement_count: g.reinforcement_count,
        last_reinforced_at: g.last_reinforced_at,
        created_at: g.created_at,
        updated_at: g.updated_at,
        ..rows[affinity_merge::row_of_id(rows, g.survivor_id)->0]
    }
}

/// The vector that a group's example gets.
pub open spec fn survivor_vector(vectors: Supplied, g: GroupSpec) -> (Id, Seq<u8>) {
    (
        g.survivor_id,
        float_bits::vector_bytes(
            vectors[supplied_at(vectors, g.survivor_id, vectors.len())->0].1,
        ),
    )
}

/// The store after every example was moved to another model, or why it was
/// not.
pub open spec fn replaced(
    rows: Seq<Affinity>,
    model: String,
    dim: usize,
    actual: Seq<char>,
    expected: Seq<char>,
    vectors: Supplied,
) -> Result<StoreSpec, CoreFault> {
    if model@.len() == 0 {
        Err(CoreFault::Validation("affinity embedding model must not be empty"@))
    } else if dim == 0 {
        Err(CoreFault::Validation("affinity embedding dimension must be non-zero"@))
    } else if vector_fault(vectors, dim as nat, vectors.len()) is Some {
        Err(CoreFault::Validation(vector_fault(vectors, dim as nat, vectors.len())->0))
    } else if actual != expected {
        Err(CoreFault::Conflict("query affinities changed during affinity re-embedding"@))
    } else {
        match reembedding_groups(rows) {
            Err(e) => Err(e),
            Ok(groups) => if !vectors_match(groups, vectors) {
                Err(
                    CoreFault::Validation(
                        "affinity vector set does not match retained affinity rows"@,
                    ),
                )
            } else {
                Ok(
                    StoreSpec {
                        affinities: groups.map_values(
                            |g: GroupSpec| survivor_row(rows, g, model, dim),
                        ),
                        vectors: groups.map_values(|g: GroupSpec| survivor_vector(vectors, g)),
                    },
                )
            },
        }
    }
}

fn is_all_finite(vector: &Vec<u32>) -> (r: bool)
    ensures
        r == all_finite(vector@),
{
    let mut i: usize = 0;
    while i < vector.len()
        invariant
            i <= vector.len(),
            forall|k: int| 0 <= k < i ==> float_bits::finite32(#[trigger] vector@[k]),
        decreases vector.len() - i,
    {
        if !float_bits::is_finite32(vector[i]) {
            return false;
        }
        i += 1;
    }
    true
}

proof fn lemma_supplied_stays(vectors: Supplied, id: Id, n: nat, m: nat)
    requires
        n <= m,
        supplied_at(vectors, id, n) is Some,
    ensures
        supplied_at(vectors, id, m) == supplied_at(vectors, id, n),
    decreases m,
{
    if n < m {
        lemma_supplied_stays(vectors, id, n, (m - 1) as nat);
    }
}

/// The position of the first of the first `n` vectors that is for `id`.
fn find_supplied(vectors: &Vec<(Id, Vec<u32>)>, id: Id, n: usize) -> (r: Option<usize>)
    requires
        n <= vectors.len(),
    ensures
        match r {
            Some(i) => i < n && supplied_at(supplied_of(vectors@), id, n as nat) == Some(i as int),
            None => supplied_at(supplied_of(vectors@), id, n as nat) is None,
        },
{
    let ghost all = supplied_of(vectors@);
    let mut i: usize = 0;
    while i < n
        invariant
            i <= n <= vectors.len(),
            all == supplied_of(vectors@),
            supplied_at(all, id, i as nat) is None,
        decreases n - i,
    {
        proof {
            assert(all[i as int].0 == vectors@[i as int].0);
        }
        if vectors[i].0 == id {
            proof {
                lemma_supplied_stays(all, id, (i + 1) as nat, n as nat);
            }
            return Some(i);
        }
        i += 1;
    }
    None
}

proof fn lemma_fault_stays(vectors: Supplied, dim: nat, n: nat, m: nat)
    requires
        n <= m,
        vector_fault(vectors, dim, n) is Some,
    ensures
        vector_fault(vectors, dim, m) == vector_fault(vectors, dim, n),
    decreases m,
{
    if n < m {
        lemma_fault_stays(vectors, dim, n, (m - 1) as nat);
    }
}

/// Reject vectors of a wrong length, with numbers that are not finite, or for
/// one example twice.
pub fn check_vectors(vectors: &Vec<(Id, Vec<u32>)>, dim: usize) -> (r: Result<(), CoreError>)
    ensures
        match r {
            Ok(()) => vector_fault(supplied_of(vectors@), dim as nat, vectors@.len()) is None,
            Err(e) => vector_fault(supplied_of(vectors@), dim as nat, vectors@.len()) matches Some(
                m,
            ) && e@ == CoreFault::Validation(m),
        },
{
    let ghost all = supplied_of(vectors@);
    let mut i: usize = 0;
    while i < vectors.len()
        invariant
            i <= vectors.len(),
            all == supplied_of(vectors@),
            vector_fault(all, dim as nat, i as nat) is None,
        decreases vectors.len() - i,
    {
        let id = vectors[i].0;
        let vector = &vectors[i].1;
        proof {
            assert(all[i as int] == (id, vector@));
        }
        let bad_len = vector.len() != dim;
        let bad_number = !bad_len && !is_all_finite(vector);
        let twice = !bad_len && !bad_number && find_supplied(vectors, id, i).is_some();
        if bad_len || bad_number || twice {
            let id = ids::id_text(id);
            let message = if bad_len {
                let found = text::decimal_text(vector.len() as u64);
                let wanted = text::decimal_text(dim as u64);
                let mut m = text::text3("affinity vector ", id.as_str(), " has dimension ");
                m.append(found.as_str());
                m.append(", expected ");
                m.append(wanted.as_str());
                m
            } else if bad_number {
                text::text3("affinity vector ", id.as_str(), " contains a non-finite value")
            } else {
                text::text2("duplicate affinity vector: ", id.as_str())
            };
            proof {
                lemma_fault_stays(all, dim as nat, (i + 1) as nat, all.len());
            }
            return Err(CoreError::Validation(message));
        }
        i += 1;
    }
    Ok(())
}

/// Every group is made of examples that exist.
proof fn lemma_group_survivors(rows: Seq<Affinity>, n: nat)
    requires
        n <= rows.len(),
        groups_of(rows, n) is Ok,
    ensures
        forall|i: int|
            0 <= i < groups_of(rows, n)->Ok_0.len() ==> affinity_merge::has_example(
                rows.take(n as int),
                (#[trigger] groups_of(rows, n)->Ok_0[i]).survivor_id,
            ),
    decreases n,
{
    if n > 0 {
        lemma_group_survivors(rows, (n - 1) as nat);
        let before = groups_of(rows, (n - 1) as nat)->Ok_0;
        let groups = groups_of(rows, n)->Ok_0;
        let row = rows[n - 1];
        let earlier = rows.take(n - 1);
        let now = rows.take(n as int);
        lemma_group_for(before, row, before.len());
        assert forall|i: int| 0 <= i < groups.len() implies affinity_merge::has_example(
            now,
            (#[trigger] groups[i]).survivor_id,
        ) by {
            if groups[i].survivor_id == row.id {
                assert(now[n - 1].id == row.id);
            } else {
                assert(affinity_merge::has_example(earlier, before[i].survivor_id));
                let j = choose|j: int|
                    0 <= j < earlier.len() && (#[trigger] earlier[j]).id == before[i].survivor_id;
                assert(now[j].id == before[i].survivor_id);
            }
        }
    }
}

proof fn lemma_group_for(groups: Seq<GroupSpec>, row: Affinity, n: nat)
    requires
        n <= groups.len(),
    ensures
        match group_for(groups, row, n) {
            Some(i) => 0 <= i < n && groups[i].takes(row),
            None => forall|i: int| 0 <= i < n ==> !(#[trigger] groups[i]).takes(row),
        },
    decreases n,
{
    if n > 0 {
        lemma_group_for(groups, row, (n - 1) as nat);
    }
}

proof fn lemma_place(sorted: Seq<GroupSpec>, id: Id, n: nat)
    requires
        n <= sorted.len(),
    ensures
        0 <= place_of(sorted, id, n) <= n,
    decreases n,
{
    if n > 0 && sorted[n - 1].survivor_id > id {
        lemma_place(sorted, id, (n - 1) as nat);
    }
}

/// Sorting keeps every group and adds none.
proof fn lemma_sorted_members(groups: Seq<GroupSpec>, n: nat)
    requires
        n <= groups.len(),
    ensures
        sorted_groups(groups, n).len() == n,
        forall|g: GroupSpec|
            #[trigger] sorted_groups(groups, n).contains(g) <==> groups.take(n as int).contains(g),
    decreases n,
{
    if n > 0 {
        lemma_sorted_members(groups, (n - 1) as nat);
        let before = sorted_groups(groups, (n - 1) as nat);
        let g = groups[n - 1];
        let p = place_of(before, g.survivor_id, before.len());
        lemma_place(before, g.survivor_id, before.len());
        let after = before.insert(p, g);
        let shorter = groups.take(n - 1);
        let longer = groups.take(n as int);
        assert(longer =~= shorter.push(g));
        assert forall|x: GroupSpec| #[trigger] after.contains(x) <==> longer.contains(x) by {
            if after.contains(x) {
                let i = choose|i: int| 0 <= i < after.len() && after[i] == x;
                if i == p {
                    assert(longer[n - 1] == x);
                } else {
                    let k = if i < p {
                        i
                    } else {
                        i - 1
                    };
                    assert(before[k] == x);
                    assert(before.contains(x));
                    let j = choose|j: int| 0 <= j < shorter.len() && shorter[j] == x;
                    assert(longer[j] == x);
                }
            }
            if longer.contains(x) {
                let j = choose|j: int| 0 <= j < longer.len() && longer[j] == x;
                if j == n - 1 {
                    assert(after[p] == x);
                } else {
                    assert(shorter[j] == x);
                    assert(shorter.contains(x));
                    assert(before.contains(x));
                    let i = choose|i: int| 0 <= i < before.len() && before[i] == x;
                    let k = if i < p {
                        i
                    } else {
                        i + 1
                    };
                    assert(after[k] == x);
                }
            }
        }
    }
}

/// Every survivor in the sorted groups is an example.
proof fn lemma_sorted_survivors(rows: Seq<Affinity>)
    requires
        reembedding_groups(rows) is Ok,
    ensures
        forall|i: int|
            0 <= i < reembedding_groups(rows)->Ok_0.len() ==> affinity_merge::row_of_id(
                rows,
                (#[trigger] reembedding_groups(rows)->Ok_0[i]).survivor_id,
            ) is Some,
{
    let groups = groups_of(rows, rows.len())->Ok_0;
    let sorted = reembedding_groups(rows)->Ok_0;
    lemma_group_survivors(rows, rows.len());
    lemma_sorted_members(groups, groups.len());
    assert(groups.take(groups.len() as int) =~= groups);
    assert(rows.take(rows.len() as int) =~= rows);
    assert forall|i: int| 0 <= i < sorted.len() implies affinity_merge::row_of_id(
        rows,
        (#[trigger] sorted[i]).survivor_id,
    ) is Some by {
        let g = sorted[i];
        assert(sorted.contains(g));
        let k = choose|k: int| 0 <= k < groups.len() && groups[k] == g;
        assert(affinity_merge::has_example(rows, groups[k].survivor_id));
        let id = g.survivor_id;
        let j = choose|j: int| 0 <= j < rows.len() && (#[trigger] rows[j]).id == id;
        affinity_merge::lemma_first_row(rows, |a: Affinity| a.id == id, rows.len());
    }
}

/// Move every example to `embedding_model` and replace all vectors, provided
/// that the examples still have the fingerprint `expected`; `actual` is the
/// one they have. Nothing changes where anything is wrong.
pub fn replace_vectors_if_unchanged(
    store: AffinityStore,
    embedding_model: &String,
    embedding_dim: usize,
    actual: &str,
    expected: &str,
    vectors: &Vec<(Id, Vec<u32>)>,
) -> (r: Result<AffinityStore, CoreError>)
    ensures
        match r {
            Ok(after) => replaced(
                store@.affinities,
                *embedding_model,
                embedding_dim,
                actual@,
                expected@,
                supplied_of(vectors@),
            ) == Ok::<StoreSpec, CoreFault>(after@),
            Err(e) => replaced(
                store@.affinities,
                *embedding_model,
                embedding_dim,
                actual@,
                expected@,
                supplied_of(vectors@),
            ) == Err::<StoreSpec, CoreFault>(e@),
        },
{
    if embedding_model.as_str().is_empty() {
        return Err(CoreError::validation("affinity embedding model must not be empty"));
    }
    if embedding_dim == 0 {
        return Err(CoreError::validation("affinity embedding dimension must be non-zero"));
    }
    let ghost given = supplied_of(vectors@);
    match check_vectors(vectors, embedding_dim) {
        Err(e) => {
            return Err(e);
        },
        Ok(()) => {},
    }
    if !text::same(actual, expected) {
        return Err(
            CoreError::Conflict(
                "query affinities changed during affinity re-embedding".to_owned(),
            ),
        );
    }
    let groups = match affinity_reembedding_groups(&store.affinities) {
        Ok(groups) => groups,
        Err(e) => {
            return Err(e);
        },
    };
    let ghost rows = store@.affinities;
    let ghost all = groups_view(groups@);
    let mut matching = groups.len() == vectors.len();
    let mut i: usize = 0;
    while matching && i < groups.len()
        invariant
            i <= groups.len(),
            all == groups_view(groups@),
            given == supplied_of(vectors@),
            matching ==> all.len() == given.len() && forall|k: int|
                0 <= k < i ==> supplied_at(
                    given,
                    (#[trigger] all[k]).survivor_id,
                    given.len(),
                ) is Some,
            !matching ==> !vectors_match(all, given),
        decreases groups.len() - i,
    {
        proof {
            assert(all[i as int] == groups@[i as int]@);
        }
        if find_supplied(vectors, groups[i].survivor_id, vectors.len()).is_none() {
            matching = false;
        }
        i += 1;
    }
    if !matching {
        return Err(
            CoreError::validation("affinity vector set does not match retained affinity rows"),
        );
    }
    proof {
        lemma_sorted_survivors(rows);
    }
    let ghost kept = all.map_values(
        |g: GroupSpec| survivor_row(rows, g, *embedding_model, embedding_dim),
    );
    let ghost embedded = all.map_values(|g: GroupSpec| survivor_vector(given, g));
    let mut after = AffinityStore { affinities: Vec::new(), vectors: Vec::new() };
    proof {
        assert(after@.vectors =~= embedded.take(0));
    }
    let mut k: usize = 0;
    while k < groups.len()
        invariant
            k <= groups.len(),
            rows == store@.affinities,
            all == groups_view(groups@),
            given == supplied_of(vectors@),
            kept == all.map_values(
                |g: GroupSpec| survivor_row(rows, g, *embedding_model, embedding_dim),
            ),
            embedded == all.map_values(|g: GroupSpec| survivor_vector(given, g)),
            vectors_match(all, given),
            forall|j: int|
                0 <= j < all.len() ==> affinity_merge::row_of_id(
                    rows,
                    (#[trigger] all[j]).survivor_id,
                ) is Some,
            after@.affinities == kept.take(k as int),
            after@.vectors == embedded.take(k as int),
        decreases groups.len() - k,
    {
        let g = &groups[k];
        proof {
            assert(all[k as int] == g@);
        }
        let at = store.find(g.survivor_id).unwrap();
        let mut row = store.affinities[at].copy();
        row.raw_query_text = g.raw_query_text.clone();
        row.effective_query_text = g.effective_query_text.clone();
        row.embedding_model = embedding_model.clone();
        row.embedding_dim = embedding_dim as i64;
        row.reinforcement_count = g.reinforcement_count;
        row.last_reinforced_at = g.last_reinforced_at.copy();
        row.created_at = g.created_at.copy();
        row.updated_at = g.updated_at.copy();
        let v = find_supplied(vectors, g.survivor_id, vectors.len()).unwrap();
        let embedding = float_bits::encode_vector(&vectors[v].1);
        let ghost held = after@;
        proof {
            assert(given[v as int].1 == vectors@[v as int].1@);
            assert(kept[k as int] == row);
            assert(embedded[k as int] == (g.survivor_id, embedding@));
        }
        after.affinities.push(row);
        let vector_row = AffinityVector { affinity_id: g.survivor_id, embedding };
        after.vectors.push(vector_row);
        proof {
            assert(kept.take(k + 1) =~= kept.take(k as int).push(kept[k as int]));
            assert(embedded.take(k + 1) =~= embedded.take(k as int).push(embedded[k as int]));
            assert(after@.vectors =~= held.vectors.push(embedded[k as int]));
        }
        k += 1;
    }
    proof {
        assert(kept.take(k as int) =~= kept);
        assert(embedded.take(k as int) =~= embedded);
    }
    Ok(after)
}

/// Move every example to `embedding_model` and replace all vectors with those
/// that the provider computed, provided that the examples are still those that
/// the work was planned from.
pub fn replace_affinity_vectors(
    store: AffinityStore,
    embedding_model: &String,
    embedding_dim: usize,
    expected_fingerprint: &str,
    vectors: &Vec<(Id, Vec<u32>)>,
) -> (r: Result<AffinityStore, CoreError>)
    ensures
        match r {
            Ok(after) => replaced(
                store@.affinities,
                *embedding_model,
                embedding_dim,
                fingerprint_of(store@.affinities),
                expected_fingerprint@,
                supplied_of(vectors@),
            ) == Ok::<StoreSpec, CoreFault>(after@),
            Err(e) => replaced(
                store@.affinities,
                *embedding_model,
                embedding_dim,
                fingerprint_of(store@.affinities),
                expected_fingerprint@,
                supplied_of(vectors@),
            ) == Err::<StoreSpec, CoreFault>(e@),
        },
{
    let actual = affinity_reembedding_fingerprint(&store.affinities);
    replace_vectors_if_unchanged(
        store,
        embedding_model,
        embedding_dim,
        actual.as_str(),
        expected_fingerprint,
        vectors,
    )
}

} // verus!
