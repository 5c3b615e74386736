//! Taking precision away from learned query examples.
//!
//! An example leads to an entry, and perhaps to a block or a chunk of it. When
//! the block or chunk goes away the example is kept for what is left of its
//! target. Another example of the same query may lead there already; then the
//! two become one, with the latest query and vector, the larger reinforcement,
//! the latest reinforcement time and the earliest creation time.
use vstd::prelude::*;
use vstd::string::*;

use crate::error::{CoreError, CoreFault};
use crate::ids::Id;
use crate::signals::{self, Affinity, AffinityVector, Moment, Vectors};
use crate::text;
use crate::time::Timestamp;

verus! {

/// The target that an example is to have.
#[derive(Debug, Clone, Copy, PartialEq, Eq, Structural)]
pub struct PrecisionUpdate {
    pub affinity_id: Id,
    pub block_id: Option<Id>,
    pub chunk_id: Option<Id>,
}

/// The examples and their vectors.
#[derive(Debug, Clone)]
pub struct AffinityStore {
    pub affinities: Vec<Affinity>,
    pub vectors: Vec<AffinityVector>,
}

/// The examples and their vectors as mathematics.
#[verifier::ext_equal]
pub struct StoreSpec {
    pub affinities: Seq<Affinity>,
    pub vectors: Vectors,
}

impl View for AffinityStore {
    type V = StoreSpec;

    open spec fn view(&self) -> StoreSpec {
        StoreSpec {
            affinities: self.affinities@,
            vectors: signals::vectors_of(self.vectors@),
        }
    }
}

impl StoreSpec {
    /// Identifiers are unique, no two examples of one query and model lead to
    /// the same target, and no example has two vectors.
    pub open spec fn well_formed(self) -> bool {
        &&& distinct_ids(self.affinities)
        &&& distinct_targets(self.affinities)
        &&& distinct_vectors(self.vectors)
    }
}

pub open spec fn distinct_ids(rows: Seq<Affinity>) -> bool {
    forall|i: int, j: int| 0 <= i < j < rows.len() ==> (#[trigger] rows[i]).id != (#[trigger] rows[j]).id
}

/// Two examples of one query and model that lead to the same target.
pub open spec fn same_target(a: Affinity, b: Affinity) -> bool {
    a.has_target(b.query_hash@, b.embedding_model@, b.entry_id, b.block_id, b.chunk_id)
}

pub open spec fn distinct_targets(rows: Seq<Affinity>) -> bool {
    forall|i: int, j: int|
        0 <= i < j < rows.len() ==> !same_target(#[trigger] rows[i], #[trigger] rows[j])
}

pub open spec fn distinct_vectors(vectors: Vectors) -> bool {
    forall|i: int, j: int|
        0 <= i < j < vectors.len() ==> (#[trigger] vectors[i]).0 != (#[trigger] vectors[j]).0
}

/// The position of the first row that `wanted` accepts among the first `n`.
pub open spec fn first_row(rows: Seq<Affinity>, wanted: spec_fn(Affinity) -> bool, n: nat) -> Option<
    int,
>
    decreases n,
{
    if n == 0 {
        None
    } else {
        match first_row(rows, wanted, (n - 1) as nat) {
            Some(i) => Some(i),
            None => if wanted(rows[n - 1]) {
                Some(n - 1)
            } else {
                None
            },
        }
    }
}

pub proof fn lemma_first_row(rows: Seq<Affinity>, wanted: spec_fn(Affinity) -> bool, n: nat)
    requires
        n <= rows.len(),
    ensures
        match first_row(rows, wanted, n) {
            Some(i) => 0 <= i < n && wanted(rows[i]) && forall|j: int|
                0 <= j < i ==> !wanted(#[trigger] rows[j]),
            None => forall|j: int| 0 <= j < n ==> !wanted(#[trigger] rows[j]),
        },
    decreases n,
{
    if n > 0 {
        lemma_first_row(rows, wanted, (n - 1) as nat);
    }
}

/// The example with an identifier.
pub open spec fn row_of_id(rows: Seq<Affinity>, id: Id) -> Option<int> {
    first_row(rows, |a: Affinity| a.id == id, rows.len())
}

/// Another example of the same query and model that leads where `update` sends
/// `degraded`.
pub open spec fn collision_of(
    rows: Seq<Affinity>,
    degraded: Affinity,
    update: PrecisionUpdate,
) -> Option<int> {
    first_row(
        rows,
        |a: Affinity|
            a.id != update.affinity_id && a.has_target(
                degraded.query_hash@,
                degraded.embedding_model@,
                degraded.entry_id,
                update.block_id,
                update.chunk_id,
            ),
        rows.len(),
    )
}

/// The vector of an example.
pub open spec fn vector_of(vectors: Vectors, id: Id, n: nat) -> Option<Seq<u8>>
    decreases n,
{
    if n == 0 {
        None
    } else {
        match vector_of(vectors, id, (n - 1) as nat) {
            Some(v) => Some(v),
            None => if vectors[n - 1].0 == id {
                Some(vectors[n - 1].1)
            } else {
                None
            },
        }
    }
}

/// The times that decide which of two examples is the later one.
pub open spec fn later_example(
    a_last: Timestamp,
    a_updated: Timestamp,
    a_id: Id,
    b_last: Timestamp,
    b_updated: Timestamp,
    b_id: Id,
) -> bool {
    b_last.before(a_last) || (b_last == a_last && (b_updated.before(a_updated) || (b_updated
        == a_updated && a_id > b_id)))
}

/// `a` is a later example than `b`: reinforced later, or updated later, or the
/// one with the larger identifier.
pub open spec fn is_later(a: Affinity, b: Affinity) -> bool {
    later_example(
        a.last_reinforced_at.time->0,
        a.updated_at.time->0,
        a.id,
        b.last_reinforced_at.time->0,
        b.updated_at.time->0,
        b.id,
    )
}

/// The later of two stored times, the second where they are equal.
pub open spec fn latest(a: Moment, b: Moment) -> Moment {
    if b.time->0.before(a.time->0) {
        a
    } else {
        b
    }
}

/// The earlier of two stored times, the second where they are equal.
pub open spec fn earliest(a: Moment, b: Moment) -> Moment {
    if a.time->0.before(b.time->0) {
        a
    } else {
        b
    }
}

/// `survivor` after it took in `degraded`.
pub open spec fn merged(survivor: Affinity, degraded: Affinity) -> Affinity {
    let source = if is_later(degraded, survivor) {
        degraded
    } else {
        survivor
    };
    Affinity {
        raw_query_text: source.raw_query_text,
        effective_query_text: source.effective_query_text,
        embedding_dim: source.embedding_dim,
        reinforcement_count: if degraded.reinforcement_count > survivor.reinforcement_count {
            degraded.reinforcement_count
        } else {
            survivor.reinforcement_count
        },
        last_reinforced_at: latest(degraded.last_reinforced_at, survivor.last_reinforced_at),
        created_at: earliest(degraded.created_at, survivor.created_at),
        updated_at: latest(degraded.updated_at, survivor.updated_at),
        ..survivor
    }
}

/// The vector that the two keep: the later example's, or else the other's.
pub open spec fn merged_vector(
    vectors: Vectors,
    survivor: Affinity,
    degraded: Affinity,
) -> Option<Seq<u8>> {
    let own = vector_of(vectors, survivor.id, vectors.len());
    let other = vector_of(vectors, degraded.id, vectors.len());
    let (first, second) = if is_later(degraded, survivor) {
        (other, own)
    } else {
        (own, other)
    };
    if first is Some {
        first
    } else {
        second
    }
}

/// The first of the times that a merge reads whose text names no time.
pub open spec fn unreadable(survivor: Affinity, degraded: Affinity) -> Option<Seq<char>> {
    if survivor.last_reinforced_at.time is None {
        Some(survivor.last_reinforced_at.text@)
    } else if degraded.last_reinforced_at.time is None {
        Some(degraded.last_reinforced_at.text@)
    } else if survivor.updated_at.time is None {
        Some(survivor.updated_at.text@)
    } else if degraded.updated_at.time is None {
        Some(degraded.updated_at.text@)
    } else if degraded.created_at.time is None {
        Some(degraded.created_at.text@)
    } else if survivor.created_at.time is None {
        Some(survivor.created_at.text@)
    } else {
        None
    }
}

/// An error about a stored time that cannot be read.
pub open spec fn time_fault(text: Seq<char>) -> CoreFault {
    CoreFault::Storage("unreadable timestamp: "@ + text)
}

/// The store, how many examples have lost precision, and how many vectors have
/// gone with a merge.
#[verifier::ext_equal]
pub struct Degraded {
    pub store: StoreSpec,
    pub rows: nat,
    pub vectors_deleted: nat,
}

/// One example loses precision. One that is gone is passed over.
pub open spec fn degrade_one(d: Degraded, update: PrecisionUpdate) -> Result<Degraded, CoreFault> {
    let rows = d.store.affinities;
    let vectors = d.store.vectors;
    match row_of_id(rows, update.affinity_id) {
        None => Ok(d),
        Some(at) => {
            let degraded = rows[at];
            match collision_of(rows, degraded, update) {
                None => Ok(
                    Degraded {
                        store: StoreSpec {
                            affinities: rows.update(
                                at,
                                Affinity {
                                    block_id: update.block_id,
                                    chunk_id: update.chunk_id,
                                    ..degraded
                                },
                            ),
                            vectors,
                        },
                        rows: d.rows + 1,
                        vectors_deleted: d.vectors_deleted,
                    },
                ),
                Some(k) => {
                    let survivor = rows[k];
                    match unreadable(survivor, degraded) {
                        Some(text) => Err(time_fault(text)),
                        None => {
                            let others = vectors.filter(
                                |v: (Id, Seq<u8>)| v.0 != survivor.id && v.0 != degraded.id,
                            );
                            let both = vector_of(vectors, survivor.id, vectors.len()) is Some
                                && vector_of(vectors, degraded.id, vectors.len()) is Some;
                            Ok(
                                Degraded {
                                    store: StoreSpec {
                                        affinities: rows.update(
                                            k,
                                            merged(survivor, degraded),
                                        ).remove(at),
                                        vectors: match merged_vector(vectors, survivor, degraded) {
                                            Some(v) => others.push((survivor.id, v)),
                                            None => others,
                                        },
                                    },
                                    rows: d.rows + 1,
                                    vectors_deleted: if both {
                                        d.vectors_deleted + 1
                                    } else {
                                        d.vectors_deleted
                                    },
                                },
                            )
                        },
                    }
                },
            }
        },
    }
}

/// The first `n` updates, one after another.
pub open spec fn degrade(
    store: StoreSpec,
    updates: Seq<PrecisionUpdate>,
    n: nat,
) -> Result<Degraded, CoreFault>
    decreases n,
{
    if n == 0 {
        Ok(Degraded { store, rows: 0, vectors_deleted: 0 })
    } else {
        match degrade(store, updates, (n - 1) as nat) {
            Err(e) => Err(e),
            Ok(d) => degrade_one(d, updates[n - 1]),
        }
    }
}

/// Whether `a` is a later example than `b`; an error where a time cannot be
/// read.
fn merge_times(survivor: &Affinity, degraded: &Affinity) -> (r: Result<(), CoreError>)
    ensures
        match r {
            Ok(()) => unreadable(*survivor, *degraded) is None,
            Err(e) => unreadable(*survivor, *degraded) matches Some(t) && e@ == time_fault(t),
        },
{
    if survivor.last_reinforced_at.time.is_none() {
        return Err(time_error(survivor.last_reinforced_at.text.as_str()));
    }
    if degraded.last_reinforced_at.time.is_none() {
        return Err(time_error(degraded.last_reinforced_at.text.as_str()));
    }
    if survivor.updated_at.time.is_none() {
        return Err(time_error(survivor.updated_at.text.as_str()));
    }
    if degraded.updated_at.time.is_none() {
        return Err(time_error(degraded.updated_at.text.as_str()));
    }
    if degraded.created_at.time.is_none() {
        return Err(time_error(degraded.created_at.text.as_str()));
    }
    if survivor.created_at.time.is_none() {
        return Err(time_error(survivor.created_at.text.as_str()));
    }
    Ok(())
}

pub fn time_error(text: &str) -> (e: CoreError)
    ensures
        e@ == time_fault(text@),
{
    CoreError::Storage(text::text2("unreadable timestamp: ", text))
}

pub fn is_later_example(
    a_last: Timestamp,
    a_updated: Timestamp,
    a_id: Id,
    b_last: Timestamp,
    b_updated: Timestamp,
    b_id: Id,
) -> (r: bool)
    ensures
        r == later_example(a_last, a_updated, a_id, b_last, b_updated, b_id),
{
    b_last.is_before(&a_last) || (b_last == a_last && (b_updated.is_before(&a_updated) || (b_updated
        == a_updated && a_id > b_id)))
}

pub fn latest_of(a: &Moment, b: &Moment) -> (r: Moment)
    requires
        a.time is Some,
        b.time is Some,
    ensures
        r == latest(*a, *b),
{
    let x = a.time.unwrap();
    let y = b.time.unwrap();
    if y.is_before(&x) {
        a.copy()
    } else {
        b.copy()
    }
}

pub fn earliest_of(a: &Moment, b: &Moment) -> (r: Moment)
    requires
        a.time is Some,
        b.time is Some,
    ensures
        r == earliest(*a, *b),
{
    let x = a.time.unwrap();
    let y = b.time.unwrap();
    if x.is_before(&y) {
        a.copy()
    } else {
        b.copy()
    }
}

fn is_later_row(a: &Affinity, b: &Affinity) -> (r: bool)
    requires
        a.last_reinforced_at.time is Some,
        a.updated_at.time is Some,
        b.last_reinforced_at.time is Some,
        b.updated_at.time is Some,
    ensures
        r == is_later(*a, *b),
{
    is_later_example(
        a.last_reinforced_at.time.unwrap(),
        a.updated_at.time.unwrap(),
        a.id,
        b.last_reinforced_at.time.unwrap(),
        b.updated_at.time.unwrap(),
        b.id,
    )
}

fn merge(survivor: &Affinity, degraded: &Affinity) -> (r: Affinity)
    requires
        unreadable(*survivor, *degraded) is None,
    ensures
        r == merged(*survivor, *degraded),
{
    let later = is_later_row(degraded, survivor);
    Affinity {
        id: survivor.id,
        query_hash: survivor.query_hash.clone(),
        raw_query_text: if later {
            degraded.raw_query_text.clone()
        } else {
            survivor.raw_query_text.clone()
        },
        effective_query_text: if later {
            degraded.effective_query_text.clone()
        } else {
            survivor.effective_query_text.clone()
        },
        embedding_model: survivor.embedding_model.clone(),
        embedding_dim: if later {
            degraded.embedding_dim
        } else {
            survivor.embedding_dim
        },
        entry_id: survivor.entry_id,
        block_id: survivor.block_id,
        chunk_id: survivor.chunk_id,
        reinforcement_count: if degraded.reinforcement_count > survivor.reinforcement_count {
            degraded.reinforcement_count
        } else {
            survivor.reinforcement_count
        },
        last_reinforced_at: latest_of(&degraded.last_reinforced_at, &survivor.last_reinforced_at),
        created_at: earliest_of(&degraded.created_at, &survivor.created_at),
        updated_at: latest_of(&degraded.updated_at, &survivor.updated_at),
    }
}

/// A copy of some bytes.
pub fn copy_bytes(bytes: &Vec<u8>) -> (r: Vec<u8>)
    ensures
        r@ == bytes@,
{
    let mut r: Vec<u8> = Vec::new();
    let mut i: usize = 0;
    while i < bytes.len()
        invariant
            i <= bytes.len(),
            r@ == bytes@.take(i as int),
        decreases bytes.len() - i,
    {
        r.push(bytes[i]);
        proof {
            assert(bytes@.take(i + 1) =~= bytes@.take(i as int).push(bytes@[i as int]));
        }
        i += 1;
    }
    proof {
        assert(bytes@.take(i as int) =~= bytes@);
    }
    r
}

impl AffinityStore {
    /// The position of the example with an identifier.
    pub fn find(&self, id: Id) -> (r: Option<usize>)
        ensures
            match r {
                Some(i) => i < self.affinities.len() && row_of_id(self@.affinities, id) == Some(
                    i as int,
                ),
                None => row_of_id(self@.affinities, id) is None,
            },
    {
        let ghost wanted = |a: Affinity| a.id == id;
        let mut i: usize = 0;
        while i < self.affinities.len()
            invariant
                i <= self.affinities.len(),
                wanted == (|a: Affinity| a.id == id),
                first_row(self.affinities@, wanted, i as nat) is None,
            decreases self.affinities.len() - i,
        {
            if self.affinities[i].id == id {
                proof {
                    lemma_first_row_stays(
                        self.affinities@,
                        wanted,
                        (i + 1) as nat,
                        self.affinities@.len(),
                    );
                }
                return Some(i);
            }
            i += 1;
        }
        None
    }

    /// The position of another example that leads where `update` sends the one
    /// at `at`.
    fn find_collision(&self, at: usize, update: &PrecisionUpdate) -> (r: Option<usize>)
        requires
            at < self.affinities.len(),
        ensures
            match r {
                Some(k) => k < self.affinities.len() && collision_of(
                    self@.affinities,
                    self@.affinities[at as int],
                    *update,
                ) == Some(k as int),
                None => collision_of(self@.affinities, self@.affinities[at as int], *update) is None,
            },
    {
        let degraded = &self.affinities[at];
        let ghost d = *degraded;
        let ghost u = *update;
        let ghost wanted = |a: Affinity|
            a.id != u.affinity_id && a.has_target(
                d.query_hash@,
                d.embedding_model@,
                d.entry_id,
                u.block_id,
                u.chunk_id,
            );
        let mut i: usize = 0;
        while i < self.affinities.len()
            invariant
                i <= self.affinities.len(),
                at < self.affinities.len(),
                d == *degraded,
                d == self.affinities@[at as int],
                u == *update,
                wanted == (|a: Affinity|
                    a.id != u.affinity_id && a.has_target(
                        d.query_hash@,
                        d.embedding_model@,
                        d.entry_id,
                        u.block_id,
                        u.chunk_id,
                    )),
                first_row(self.affinities@, wanted, i as nat) is None,
            decreases self.affinities.len() - i,
        {
            let row = &self.affinities[i];
            if row.id != update.affinity_id && row.is_target(
                degraded.query_hash.as_str(),
                degraded.embedding_model.as_str(),
                degraded.entry_id,
                update.block_id,
                update.chunk_id,
            ) {
                proof {
                    lemma_first_row_stays(
                        self.affinities@,
                        wanted,
                        (i + 1) as nat,
                        self.affinities@.len(),
                    );
                }
                return Some(i);
            }
            i += 1;
        }
        None
    }

    /// The vector of an example.
    pub fn find_vector(&self, id: Id) -> (r: Option<Vec<u8>>)
        ensures
            match r {
                Some(v) => vector_of(self@.vectors, id, self@.vectors.len()) == Some(v@),
                None => vector_of(self@.vectors, id, self@.vectors.len()) is None,
            },
    {
        let ghost all = self@.vectors;
        let mut i: usize = 0;
        while i < self.vectors.len()
            invariant
                i <= self.vectors.len(),
                all == self@.vectors,
                vector_of(all, id, i as nat) is None,
            decreases self.vectors.len() - i,
        {
            proof {
                assert(all[i as int] == (
                    self.vectors@[i as int].affinity_id,
                    self.vectors@[i as int].embedding@,
                ));
            }
            if self.vectors[i].affinity_id == id {
                proof {
                    lemma_vector_stays(all, id, (i + 1) as nat, all.len());
                }
                return Some(copy_bytes(&self.vectors[i].embedding));
            }
            i += 1;
        }
        None
    }

    /// Drop the vectors of two examples.
    fn drop_vectors(&mut self, a: Id, b: Id)
        ensures
            final(self)@.affinities == old(self)@.affinities,
            final(self)@.vectors == old(self)@.vectors.filter(
                |v: (Id, Seq<u8>)| v.0 != a && v.0 != b,
            ),
    {
        let ghost keep = |v: (Id, Seq<u8>)| v.0 != a && v.0 != b;
        let ghost all = self@.vectors;
        let mut rows: Vec<AffinityVector> = Vec::new();
        std::mem::swap(&mut rows, &mut self.vectors);
        let ghost held = rows@;
        proof {
            assert(signals::vectors_of(held) == all);
            assert(all.take(0).filter(keep) =~= Seq::empty()) by {
                reveal(Seq::filter);
            }
            assert(signals::vectors_of(self.vectors@) =~= Seq::empty());
        }
        for row in it: rows
            invariant
                it.seq() == held,
                all == signals::vectors_of(held),
                keep == (|v: (Id, Seq<u8>)| v.0 != a && v.0 != b),
                self.affinities@ == old(self).affinities@,
                signals::vectors_of(self.vectors@) == all.take(it.index() as int).filter(keep),
        {
            proof {
                let i = it.index() as int;
                assert(all[i] == (row.affinity_id, row.embedding@));
                signals::lemma_filter_take(all, i, keep);
            }
            if row.affinity_id != a && row.affinity_id != b {
                let ghost before = self.vectors@;
                self.vectors.push(row);
                proof {
                    assert(signals::vectors_of(self.vectors@) =~= signals::vectors_of(before).push(
                        (row.affinity_id, row.embedding@),
                    ));
                }
            }
        }
        proof {
            assert(all.take(all.len() as int) =~= all);
        }
    }
}

proof fn lemma_first_row_stays(
    rows: Seq<Affinity>,
    wanted: spec_fn(Affinity) -> bool,
    n: nat,
    m: nat,
)
    requires
        n <= m,
        first_row(rows, wanted, n) is Some,
    ensures
        first_row(rows, wanted, m) == first_row(rows, wanted, n),
    decreases m,
{
    if n < m {
        lemma_first_row_stays(rows, wanted, n, (m - 1) as nat);
    }
}

proof fn lemma_vector_stays(vectors: Vectors, id: Id, n: nat, m: nat)
    requires
        n <= m,
        vector_of(vectors, id, n) is Some,
    ensures
        vector_of(vectors, id, m) == vector_of(vectors, id, n),
    decreases m,
{
    if n < m {
        lemma_vector_stays(vectors, id, n, (m - 1) as nat);
    }
}

/// Take precision from examples, one update after another, without ever having
/// two examples of one query lead to the same target. Gives the store, how
/// many examples changed, and how many vectors a merge made superfluous.
pub fn degrade_affinity_precision(
    store: AffinityStore,
    updates: &Vec<PrecisionUpdate>,
) -> (r: Result<(AffinityStore, u64, u64), CoreError>)
    ensures
        match r {
            Ok((after, rows, vectors_deleted)) => degrade(store@, updates@, updates@.len()) == Ok::<
                Degraded,
                CoreFault,
            >(
                Degraded {
                    store: after@,
                    rows: rows as nat,
                    vectors_deleted: vectors_deleted as nat,
                },
            ) && rows <= updates.len() && vectors_deleted <= updates.len(),
            Err(e) => degrade(store@, updates@, updates@.len()) == Err::<Degraded, CoreFault>(e@),
        },
{
    let ghost start = store@;
    let mut current = store;
    let mut rows: u64 = 0;
    let mut vectors_deleted: u64 = 0;
    let mut i: usize = 0;
    while i < updates.len()
        invariant
            i <= updates.len(),
            start == store@,
            rows <= i,
            vectors_deleted <= i,
            degrade(start, updates@, i as nat) == Ok::<Degraded, CoreFault>(
                Degraded {
                    store: current@,
                    rows: rows as nat,
                    vectors_deleted: vectors_deleted as nat,
                },
            ),
        decreases updates.len() - i,
    {
        let update = updates[i];
        let ghost before = current@;
        match current.find(update.affinity_id) {
            None => {},
            Some(at) => {
                match current.find_collision(at, &update) {
                    None => {
                        let mut row = current.affinities[at].copy();
                        row.block_id = update.block_id;
                        row.chunk_id = update.chunk_id;
                        current.affinities.set(at, row);
                        rows = rows + 1;
                        proof {
                            assert(current@ =~= degrade_one(
                                Degraded {
                                    store: before,
                                    rows: (rows - 1) as nat,
                                    vectors_deleted: vectors_deleted as nat,
                                },
                                update,
                            )->Ok_0.store);
                        }
                    },
                    Some(k) => {
                        let survivor = current.affinities[k].copy();
                        let degraded = current.affinities[at].copy();
                        match merge_times(&survivor, &degraded) {
                            Err(e) => {
                                proof {
                                    lemma_degrade_err(
                                        start,
                                        updates@,
                                        (i + 1) as nat,
                                        updates@.len(),
                                    );
                                }
                                return Err(e);
                            },
                            Ok(()) => {},
                        }
                        let own = current.find_vector(survivor.id);
                        let other = current.find_vector(degraded.id);
                        let both = own.is_some() && other.is_some();
                        let kept = if is_later_row(&degraded, &survivor) {
                            match other {
                                Some(v) => Some(v),
                                None => own,
                            }
                        } else {
                            match own {
                                Some(v) => Some(v),
                                None => other,
                            }
                        };
                        current.affinities.set(k, merge(&survivor, &degraded));
                        let _ = current.affinities.remove(at);
                        current.drop_vectors(survivor.id, degraded.id);
                        if let Some(embedding) = kept {
                            let ghost held = current.vectors@;
                            let row = AffinityVector { affinity_id: survivor.id, embedding };
                            current.vectors.push(row);
                            proof {
                                assert(signals::vectors_of(current.vectors@) =~= signals::vectors_of(
                                    held,
                                ).push((survivor.id, embedding@)));
                            }
                        }
                        rows = rows + 1;
                        if both {
                            vectors_deleted = vectors_deleted + 1;
                        }
                        proof {
                            let d = Degraded {
                                store: before,
                                rows: (rows - 1) as nat,
                                vectors_deleted: if both {
                                    (vectors_deleted - 1) as nat
                                } else {
                                    vectors_deleted as nat
                                },
                            };
                            lemma_first_row(
                                before.affinities,
                                |a: Affinity| a.id == update.affinity_id,
                                before.affinities.len(),
                            );
                            assert(current@.affinities =~= degrade_one(
                                d,
                                update,
                            )->Ok_0.store.affinities);
                            assert(current@.vectors =~= degrade_one(d, update)->Ok_0.store.vectors);
                        }
                    },
                }
            },
        }
        i += 1;
    }
    Ok((current, rows, vectors_deleted))
}

proof fn lemma_degrade_err(start: StoreSpec, updates: Seq<PrecisionUpdate>, n: nat, m: nat)
    requires
        n <= m,
        degrade(start, updates, n) is Err,
    ensures
        degrade(start, updates, m) == degrade(start, updates, n),
    decreases m,
{
    if n < m {
        lemma_degrade_err(start, updates, n, (m - 1) as nat);
    }
}

/// Every vector is that of an example.
pub open spec fn vectors_have_examples(store: StoreSpec) -> bool {
    forall|i: int|
        0 <= i < store.vectors.len() ==> has_example(
            store.affinities,
            (#[trigger] store.vectors[i]).0,
        )
}

pub open spec fn has_example(rows: Seq<Affinity>, id: Id) -> bool {
    exists|j: int| 0 <= j < rows.len() && (#[trigger] rows[j]).id == id
}

pub proof fn lemma_push_vector(others: Vectors, id: Id, v: Seq<u8>)
    requires
        distinct_vectors(others),
        forall|i: int| 0 <= i < others.len() ==> (#[trigger] others[i]).0 != id,
    ensures
        distinct_vectors(others.push((id, v))),
{
}

pub proof fn lemma_filter_vectors(vectors: Vectors, keep: spec_fn((Id, Seq<u8>)) -> bool)
    ensures
        distinct_vectors(vectors) ==> distinct_vectors(vectors.filter(keep)),
        forall|i: int|
            0 <= i < vectors.filter(keep).len() ==> keep(#[trigger] vectors.filter(keep)[i])
                && vectors.contains(vectors.filter(keep)[i]),
{
    let out = vectors.filter(keep);
    signals::lemma_filter_rows(vectors, keep);
    assert forall|i: int| 0 <= i < out.len() implies keep(#[trigger] out[i]) && vectors.contains(
        out[i],
    ) by {
        assert(out.contains(out[i]));
    }
    if distinct_vectors(vectors) {
        assert forall|i: int, j: int| 0 <= i < j < out.len() implies (#[trigger] out[i]).0 != (
        #[trigger] out[j]).0 by {
            let (a, b) = signals::lemma_filter_order(vectors, keep, i, j);
        }
    }
}

proof fn lemma_degrade_one(d: Degraded, update: PrecisionUpdate)
    requires
        d.store.well_formed(),
        degrade_one(d, update) is Ok,
    ensures
        degrade_one(d, update)->Ok_0.store.well_formed(),
        vectors_have_examples(d.store) ==> vectors_have_examples(
            degrade_one(d, update)->Ok_0.store,
        ),
        degrade_one(d, update)->Ok_0.store.affinities.len() <= d.store.affinities.len(),
{
    let rows = d.store.affinities;
    let vectors = d.store.vectors;
    let after = degrade_one(d, update)->Ok_0.store;
    let by_id = |a: Affinity| a.id == update.affinity_id;
    lemma_first_row(rows, by_id, rows.len());
    if let Some(at) = row_of_id(rows, update.affinity_id) {
        let degraded = rows[at];
        let wanted = |a: Affinity|
            a.id != update.affinity_id && a.has_target(
                degraded.query_hash@,
                degraded.embedding_model@,
                degraded.entry_id,
                update.block_id,
                update.chunk_id,
            );
        lemma_first_row(rows, wanted, rows.len());
        match collision_of(rows, degraded, update) {
            None => {
                let moved = Affinity {
                    block_id: update.block_id,
                    chunk_id: update.chunk_id,
                    ..degraded
                };
                assert(after.affinities == rows.update(at, moved));
                assert forall|i: int, j: int| 0 <= i < j < after.affinities.len() implies !same_target(
                    #[trigger] after.affinities[i],
                    #[trigger] after.affinities[j],
                ) by {
                    if i == at {
                        assert(!wanted(rows[j]));
                        assert(rows[at].id != rows[j].id);
                    } else if j == at {
                        assert(!wanted(rows[i]));
                        assert(rows[i].id != rows[at].id);
                    } else {
                        assert(!same_target(rows[i], rows[j]));
                    }
                }
                assert forall|i: int, j: int| 0 <= i < j < after.affinities.len() implies (
                #[trigger] after.affinities[i]).id != (#[trigger] after.affinities[j]).id by {
                    assert(rows[i].id != rows[j].id);
                }
                if vectors_have_examples(d.store) {
                    assert forall|i: int| 0 <= i < after.vectors.len() implies has_example(
                        after.affinities,
                        (#[trigger] after.vectors[i]).0,
                    ) by {
                        assert(has_example(rows, vectors[i].0));
                        let j = choose|j: int|
                            0 <= j < rows.len() && (#[trigger] rows[j]).id == vectors[i].0;
                        assert(after.affinities[j].id == vectors[i].0);
                    }
                }
            },
            Some(k) => {
                let survivor = rows[k];
                let m = merged(survivor, degraded);
                let mid = rows.update(k, m);
                assert(at != k);
                assert(after.affinities == mid.remove(at));
                assert forall|i: int, j: int| 0 <= i < j < mid.len() implies !same_target(
                    #[trigger] mid[i],
                    #[trigger] mid[j],
                ) by {
                    assert(!same_target(rows[i], rows[j]));
                }
                assert forall|i: int, j: int| 0 <= i < j < mid.len() implies (#[trigger] mid[i]).id
                    != (#[trigger] mid[j]).id by {
                    assert(rows[i].id != rows[j].id);
                }
                assert forall|i: int, j: int| 0 <= i < j < after.affinities.len() implies !same_target(
                    #[trigger] after.affinities[i],
                    #[trigger] after.affinities[j],
                ) && after.affinities[i].id != after.affinities[j].id by {
                    let a = if i < at {
                        i
                    } else {
                        i + 1
                    };
                    let b = if j < at {
                        j
                    } else {
                        j + 1
                    };
                    assert(after.affinities[i] == mid[a] && after.affinities[j] == mid[b]);
                }
                let keep = |v: (Id, Seq<u8>)| v.0 != survivor.id && v.0 != degraded.id;
                let others = vectors.filter(keep);
                lemma_filter_vectors(vectors, keep);
                if let Some(v) = merged_vector(vectors, survivor, degraded) {
                    lemma_push_vector(others, survivor.id, v);
                }
                if vectors_have_examples(d.store) {
                    assert forall|i: int| 0 <= i < after.vectors.len() implies has_example(
                        after.affinities,
                        (#[trigger] after.vectors[i]).0,
                    ) by {
                        let id = after.vectors[i].0;
                        let j = if i < others.len() {
                            assert(keep(others[i]) && vectors.contains(others[i]));
                            let x = choose|x: int|
                                0 <= x < vectors.len() && vectors[x] == others[i];
                            assert(has_example(rows, vectors[x].0));
                            choose|j: int| 0 <= j < rows.len() && (#[trigger] rows[j]).id == id
                        } else {
                            k
                        };
                        assert(rows[j].id == id);
                        assert(j != at);
                        let a = if j < at {
                            j
                        } else {
                            j - 1
                        };
                        assert(after.affinities[a] == mid[j]);
                        assert(after.affinities[a].id == id);
                    }
                }
            },
        }
    }
}

/// Taking precision away keeps identifiers, targets and vectors unique, leaves
/// no vector without its example, and never adds an example.
pub proof fn law_degrade_keeps_well_formed(
    store: StoreSpec,
    updates: Seq<PrecisionUpdate>,
    n: nat,
)
    requires
        store.well_formed(),
        n <= updates.len(),
        degrade(store, updates, n) is Ok,
    ensures
        degrade(store, updates, n)->Ok_0.store.well_formed(),
        vectors_have_examples(store) ==> vectors_have_examples(
            degrade(store, updates, n)->Ok_0.store,
        ),
        degrade(store, updates, n)->Ok_0.store.affinities.len() <= store.affinities.len(),
        degrade(store, updates, n)->Ok_0.rows <= n,
        degrade(store, updates, n)->Ok_0.vectors_deleted <= n,
    decreases n,
{
    if n > 0 {
        law_degrade_keeps_well_formed(store, updates, (n - 1) as nat);
        lemma_degrade_one(degrade(store, updates, (n - 1) as nat)->Ok_0, updates[n - 1]);
    }
}

/// A merge never stacks strength: it keeps the larger reinforcement, the later
/// reinforcement and update, and the earlier creation; and which of the two
/// survives makes no difference to the query that is kept.
pub proof fn law_merge_keeps_the_best_of_both(a: Affinity, b: Affinity)
    requires
        unreadable(a, b) is None,
        a.id != b.id,
    ensures
        merged(a, b).reinforcement_count == if a.reinforcement_count >= b.reinforcement_count {
            a.reinforcement_count
        } else {
            b.reinforcement_count
        },
        merged(a, b).last_reinforced_at.time == Some(
            a.last_reinforced_at.time->0.later(b.last_reinforced_at.time->0),
        ),
        merged(a, b).updated_at.time == Some(a.updated_at.time->0.later(b.updated_at.time->0)),
        merged(a, b).created_at.time == Some(a.created_at.time->0.earlier(b.created_at.time->0)),
        merged(a, b).raw_query_text == merged(b, a).raw_query_text,
        merged(a, b).effective_query_text == merged(b, a).effective_query_text,
        merged(a, b).embedding_dim == merged(b, a).embedding_dim,
        same_target(merged(a, b), a),
        merged(a, b).id == a.id,
{
}

} // verus!
