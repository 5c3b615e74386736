//! Which entries a learned query points at, and in what order.
//!
//! Similarities and confidences are floating-point numbers, given by their bits
//! and computed elsewhere; what is decided here is which examples take part,
//! how they are ordered, and which hits are returned.
use vstd::prelude::*;
use vstd::string::*;

use crate::affinity_merge;
use crate::error::{CoreError, CoreFault};
use crate::float_bits::{self, F64Bits};
use crate::ids::Id;
use crate::memory_model::AffinityHit;
use crate::ordering::{self, Order, Ranked};
use crate::signals::{self, Affinity};
use crate::tables;
use crate::text;
use crate::time::Timestamp;

verus! {

/// The largest table that a nearest-neighbour search covers completely.
pub const NEAREST_LIMIT: u64 = 4096;

/// How examples near a query are found.
#[derive(Debug, Clone, Copy, PartialEq, Eq, Structural)]
pub enum Lookup {
    /// There is nothing to find.
    Nothing,
    /// Ask for as many neighbours as there are vectors.
    Nearest(u64),
    /// Compare with every vector.
    Scan,
}

/// How examples near a query of `dim` numbers are found among `vectors`, when
/// `limit` hits are wanted. Filters apply after a nearest-neighbour search, so
/// it must cover the whole table.
pub fn lookup_for(dim: usize, limit: usize, vectors: u64) -> (r: Lookup)
    ensures
        r == Lookup::Nothing <==> dim == 0 || limit == 0 || vectors == 0,
        r == Lookup::Nearest(vectors) <==> dim > 0 && limit > 0 && 0 < vectors <= NEAREST_LIMIT,
        r == Lookup::Scan <==> dim > 0 && limit > 0 && vectors > NEAREST_LIMIT,
        r == Lookup::Scan <==> dim > 0 && limit > 0 && vectors > 4096,
{
    if dim == 0 || limit == 0 || vectors == 0 {
        Lookup::Nothing
    } else if vectors <= NEAREST_LIMIT {
        Lookup::Nearest(vectors)
    } else {
        Lookup::Scan
    }
}

/// What a lookup reads of an entry.
#[derive(Debug, Clone)]
pub struct EntryFacts {
    pub id: Id,
    pub tags: Vec<String>,
    /// The entry belongs to a benchmark.
    pub benchmark: bool,
}

/// What a lookup reads of a block.
#[derive(Debug, Clone)]
pub struct BlockFacts {
    pub id: Id,
    pub entry_id: Id,
    pub type_: String,
}

/// What a lookup reads of the content.
#[derive(Debug, Clone)]
pub struct Catalog {
    pub entries: Vec<EntryFacts>,
    pub blocks: Vec<BlockFacts>,
    /// Chunk and its block.
    pub chunks: Vec<(Id, Id)>,
}

/// Which hits are wanted.
#[derive(Debug, Clone)]
pub struct AffinityFilter {
    pub model: String,
    pub dim: i64,
    pub block_type: Option<String>,
    pub tag: Option<String>,
    pub include_benchmark: bool,
}

impl Catalog {
    /// An entry of that name may be shown and has the tag, where one is asked
    /// for.
    pub open spec fn shows(&self, entry: Id, filter: AffinityFilter) -> bool {
        exists|i: int|
            0 <= i < self.entries@.len() && (#[trigger] self.entries@[i]).id == entry && (
            filter.include_benchmark || !self.entries@[i].benchmark) && (filter.tag is None
                || text::texts(self.entries@[i].tags@).contains(filter.tag->0@))
    }

    /// The block belongs to the entry.
    pub open spec fn owns_block(&self, entry: Id, block: Id) -> bool {
        exists|i: int|
            0 <= i < self.blocks@.len() && (#[trigger] self.blocks@[i]).id == block
                && self.blocks@[i].entry_id == entry
    }

    /// The block belongs to the entry and is of the type.
    pub open spec fn owns_block_of_type(&self, entry: Id, block: Id, type_: Seq<char>) -> bool {
        exists|i: int|
            0 <= i < self.blocks@.len() && (#[trigger] self.blocks@[i]).id == block
                && self.blocks@[i].entry_id == entry && self.blocks@[i].type_@ == type_
    }

    /// The chunk stands in a block of the entry.
    pub open spec fn owns_chunk(&self, entry: Id, chunk: Id) -> bool {
        exists|i: int|
            0 <= i < self.chunks@.len() && (#[trigger] self.chunks@[i]).0 == chunk
                && self.owns_block(entry, self.chunks@[i].1)
    }

    fn find_shown(&self, entry: Id, filter: &AffinityFilter) -> (r: bool)
        ensures
            r == self.shows(entry, *filter),
    {
        let mut i: usize = 0;
        while i < self.entries.len()
            invariant
                i <= self.entries.len(),
                forall|k: int|
                    0 <= k < i ==> !((#[trigger] self.entries@[k]).id == entry && (
                    filter.include_benchmark || !self.entries@[k].benchmark) && (
                    filter.tag is None || text::texts(self.entries@[k].tags@).contains(
                        filter.tag->0@,
                    ))),
            decreases self.entries.len() - i,
        {
            let e = &self.entries[i];
            if e.id == entry && (filter.include_benchmark || !e.benchmark) {
                let tagged = match &filter.tag {
                    None => true,
                    Some(tag) => tables::is_tagged(&e.tags, tag.as_str()),
                };
                if tagged {
                    proof {
                        assert(self.entries@[i as int].id == entry);
                    }
                    return true;
                }
            }
            i += 1;
        }
        false
    }

    fn find_block(&self, entry: Id, block: Id) -> (r: bool)
        ensures
            r == self.owns_block(entry, block),
    {
        let mut i: usize = 0;
        while i < self.blocks.len()
            invariant
                i <= self.blocks.len(),
                forall|k: int|
                    0 <= k < i ==> !((#[trigger] self.blocks@[k]).id == block
                        && self.blocks@[k].entry_id == entry),
            decreases self.blocks.len() - i,
        {
            if self.blocks[i].id == block && self.blocks[i].entry_id == entry {
                return true;
            }
            i += 1;
        }
        false
    }

    fn find_block_of_type(&self, entry: Id, block: Id, type_: &str) -> (r: bool)
        ensures
            r == self.owns_block_of_type(entry, block, type_@),
    {
        let mut i: usize = 0;
        while i < self.blocks.len()
            invariant
                i <= self.blocks.len(),
                forall|k: int|
                    0 <= k < i ==> !((#[trigger] self.blocks@[k]).id == block
                        && self.blocks@[k].entry_id == entry && self.blocks@[k].type_@ == type_@),
            decreases self.blocks.len() - i,
        {
            let b = &self.blocks[i];
            if b.id == block && b.entry_id == entry && text::same(b.type_.as_str(), type_) {
                return true;
            }
            i += 1;
        }
        false
    }

    fn find_chunk(&self, entry: Id, chunk: Id) -> (r: bool)
        ensures
            r == self.owns_chunk(entry, chunk),
    {
        let mut i: usize = 0;
        while i < self.chunks.len()
            invariant
                i <= self.chunks.len(),
                forall|k: int|
                    0 <= k < i ==> !((#[trigger] self.chunks@[k]).0 == chunk && self.owns_block(
                        entry,
                        self.chunks@[k].1,
                    )),
            decreases self.chunks.len() - i,
        {
            if self.chunks[i].0 == chunk && self.find_block(entry, self.chunks[i].1) {
                return true;
            }
            i += 1;
        }
        false
    }
}

/// An example that takes part in a lookup.
#[derive(Debug, Clone, Copy, PartialEq, Eq, Structural)]
pub struct RawAffinity {
    pub affinity_id: Id,
    pub entry_id: Id,
    pub block_id: Option<Id>,
    pub chunk_id: Option<Id>,
    pub reinforcement_count: u8,
    pub last_reinforced_at: Timestamp,
    pub similarity: F64Bits,
}

/// The example was learned with the model, and its entry and block are wanted.
pub open spec fn takes_part(a: Affinity, catalog: Catalog, filter: AffinityFilter) -> bool {
    &&& a.embedding_model@ == filter.model@
    &&& a.embedding_dim == filter.dim
    &&& catalog.shows(a.entry_id, filter)
    &&& filter.block_type matches Some(t) ==> a.block_id is Some && catalog.owns_block_of_type(
        a.entry_id,
        a.block_id->0,
        t@,
    )
}

/// What a lookup sees of an example: a block or chunk only where it belongs to
/// the entry.
pub open spec fn seen(a: Affinity, catalog: Catalog, similarity: F64Bits) -> RawAffinity {
    RawAffinity {
        affinity_id: a.id,
        entry_id: a.entry_id,
        block_id: if a.block_id is Some && catalog.owns_block(a.entry_id, a.block_id->0) {
            a.block_id
        } else {
            None
        },
        chunk_id: if a.chunk_id is Some && catalog.owns_chunk(a.entry_id, a.chunk_id->0) {
            a.chunk_id
        } else {
            None
        },
        reinforcement_count: a.reinforcement_count,
        last_reinforced_at: a.last_reinforced_at.time->0,
        similarity,
    }
}

/// What the first `n` vectors contribute. Each vector is given by its example
/// and its similarity to the query.
pub open spec fn looked_up(
    rows: Seq<Affinity>,
    catalog: Catalog,
    filter: AffinityFilter,
    vectors: Seq<(Id, F64Bits)>,
    n: nat,
) -> Result<Seq<RawAffinity>, CoreFault>
    decreases n,
{
    if n == 0 {
        Ok(Seq::empty())
    } else {
        match looked_up(rows, catalog, filter, vectors, (n - 1) as nat) {
            Err(e) => Err(e),
            Ok(before) => match affinity_merge::row_of_id(rows, vectors[n - 1].0) {
                None => Ok(before),
                Some(i) => if !takes_part(rows[i], catalog, filter) {
                    Ok(before)
                } else if rows[i].last_reinforced_at.time is None {
                    Err(affinity_merge::time_fault(rows[i].last_reinforced_at.text@))
                } else {
                    Ok(before.push(seen(rows[i], catalog, vectors[n - 1].1)))
                },
            },
        }
    }
}

proof fn lemma_looked_up_err(
    rows: Seq<Affinity>,
    catalog: Catalog,
    filter: AffinityFilter,
    vectors: Seq<(Id, F64Bits)>,
    n: nat,
    m: nat,
)
    requires
        n <= m,
        looked_up(rows, catalog, filter, vectors, n) is Err,
    ensures
        looked_up(rows, catalog, filter, vectors, m) == looked_up(
            rows,
            catalog,
            filter,
            vectors,
            n,
        ),
    decreases m,
{
    if n < m {
        lemma_looked_up_err(rows, catalog, filter, vectors, n, (m - 1) as nat);
    }
}

fn find_row(rows: &Vec<Affinity>, id: Id) -> (r: Option<usize>)
    ensures
        match r {
            Some(i) => i < rows.len() && affinity_merge::row_of_id(rows@, id) == Some(i as int),
            None => affinity_merge::row_of_id(rows@, id) is None,
        },
{
    let ghost wanted = |a: Affinity| a.id == id;
    let mut found: Option<usize> = None;
    let mut k: usize = 0;
    while k < rows.len()
        invariant
            k <= rows.len(),
            wanted == (|a: Affinity| a.id == id),
            match found {
                Some(i) => i < k && affinity_merge::first_row(rows@, wanted, k as nat) == Some(
                    i as int,
                ),
                None => affinity_merge::first_row(rows@, wanted, k as nat) is None,
            },
        decreases rows.len() - k,
    {
        if found.is_none() && rows[k].id == id {
            found = Some(k);
        }
        k += 1;
    }
    found
}

/// Find the examples that take part in a lookup.
pub fn affinity_candidates(
    rows: &Vec<Affinity>,
    catalog: &Catalog,
    filter: &AffinityFilter,
    vectors: &Vec<(Id, F64Bits)>,
) -> (r: Result<Vec<RawAffinity>, CoreError>)
    ensures
        match r {
            Ok(raws) => looked_up(rows@, *catalog, *filter, vectors@, vectors@.len()) == Ok::<
                Seq<RawAffinity>,
                CoreFault,
            >(raws@),
            Err(e) => looked_up(rows@, *catalog, *filter, vectors@, vectors@.len()) == Err::<
                Seq<RawAffinity>,
                CoreFault,
            >(e@),
        },
{
    let mut out: Vec<RawAffinity> = Vec::new();
    let mut n: usize = 0;
    while n < vectors.len()
        invariant
            n <= vectors.len(),
            looked_up(rows@, *catalog, *filter, vectors@, n as nat) == Ok::<
                Seq<RawAffinity>,
                CoreFault,
            >(out@),
        decreases vectors.len() - n,
    {
        let (id, similarity) = vectors[n];
        if let Some(i) = find_row(rows, id) {
            let a = &rows[i];
            let typed = match &filter.block_type {
                None => true,
                Some(t) => match a.block_id {
                    Some(b) => catalog.find_block_of_type(a.entry_id, b, t.as_str()),
                    None => false,
                },
            };
            if typed && a.embedding_dim == filter.dim && text::same(
                a.embedding_model.as_str(),
                filter.model.as_str(),
            ) && catalog.find_shown(a.entry_id, filter) {
                let last_reinforced_at = match a.last_reinforced_at.time {
                    Some(t) => t,
                    None => {
                        proof {
                            lemma_looked_up_err(
                                rows@,
                                *catalog,
                                *filter,
                                vectors@,
                                (n + 1) as nat,
                                vectors@.len(),
                            );
                        }
                        return Err(affinity_merge::time_error(a.last_reinforced_at.text.as_str()));
                    },
                };
                let block_id = match a.block_id {
                    Some(b) => if catalog.find_block(a.entry_id, b) {
                        Some(b)
                    } else {
                        None
                    },
                    None => None,
                };
                let chunk_id = match a.chunk_id {
                    Some(c) => if catalog.find_chunk(a.entry_id, c) {
                        Some(c)
                    } else {
                        None
                    },
                    None => None,
                };
                out.push(
                    RawAffinity {
                        affinity_id: a.id,
                        entry_id: a.entry_id,
                        block_id,
                        chunk_id,
                        reinforcement_count: a.reinforcement_count,
                        last_reinforced_at,
                        similarity,
                    },
                );
            }
        }
        n += 1;
    }
    Ok(out)
}

/// The examples that are near enough to the query.
pub open spec fn near(raws: Seq<RawAffinity>, threshold: F64Bits) -> Seq<RawAffinity> {
    raws.filter(|r: RawAffinity| float_bits::at_least(r.similarity, threshold))
}

/// Keep the examples that are near enough to the query.
pub fn near_enough(raws: &Vec<RawAffinity>, threshold: F64Bits) -> (kept: Vec<RawAffinity>)
    ensures
        kept@ == near(raws@, threshold),
{
    let ghost keep = |r: RawAffinity| float_bits::at_least(r.similarity, threshold);
    let mut kept: Vec<RawAffinity> = Vec::new();
    let mut i: usize = 0;
    proof {
        assert(raws@.take(0).filter(keep) =~= Seq::empty()) by {
            reveal(Seq::filter);
        }
    }
    while i < raws.len()
        invariant
            i <= raws.len(),
            keep == (|r: RawAffinity| float_bits::at_least(r.similarity, threshold)),
            kept@ == raws@.take(i as int).filter(keep),
        decreases raws.len() - i,
    {
        proof {
            signals::lemma_filter_take(raws@, i as int, keep);
        }
        if float_bits::is_at_least(raws[i].similarity, threshold) {
            kept.push(raws[i]);
        }
        i += 1;
    }
    proof {
        assert(raws@.take(i as int) =~= raws@);
    }
    kept
}

/// An example with the confidence that it lends its entry.
#[derive(Debug, Clone, Copy, PartialEq, Eq, Structural)]
pub struct Candidate {
    pub raw: RawAffinity,
    pub confidence: F64Bits,
}

/// The candidate is stronger: more confident, or nearer, or else the one with
/// the smaller entry or example.
pub open spec fn stronger(a: Candidate, b: Candidate) -> bool {
    let (c, d) = (
        float_bits::total_position(a.confidence),
        float_bits::total_position(b.confidence),
    );
    let (s, t) = (
        float_bits::total_position(a.raw.similarity),
        float_bits::total_position(b.raw.similarity),
    );
    c > d || (c == d && (s > t || (s == t && (a.raw.entry_id < b.raw.entry_id || (a.raw.entry_id
        == b.raw.entry_id && a.raw.affinity_id < b.raw.affinity_id)))))
}

/// Stronger candidates come first.
pub open spec fn by_strength() -> Order<Candidate> {
    |a: Candidate, b: Candidate| stronger(a, b)
}

impl View for Candidate {
    type V = Candidate;

    open spec fn view(&self) -> Candidate {
        *self
    }
}

impl Ranked<()> for Candidate {
    open spec fn order(mode: ()) -> Order<Candidate> {
        by_strength()
    }

    fn is_before(&self, other: &Candidate, mode: &()) -> (r: bool) {
        let c = float_bits::total_position_of(self.confidence);
        let d = float_bits::total_position_of(other.confidence);
        let s = float_bits::total_position_of(self.raw.similarity);
        let t = float_bits::total_position_of(other.raw.similarity);
        c > d || (c == d && (s > t || (s == t && (self.raw.entry_id < other.raw.entry_id || (
        self.raw.entry_id == other.raw.entry_id && self.raw.affinity_id
            < other.raw.affinity_id)))))
    }
}

/// One of the hits is for the entry.
pub open spec fn is_hit(hits: Seq<AffinityHit>, entry: Id) -> bool {
    exists|k: int| 0 <= k < hits.len() && (#[trigger] hits[k]).entry_id == entry
}

/// The hit that a candidate gives at a rank.
pub open spec fn hit_of(c: Candidate, rank: u32) -> AffinityHit {
    AffinityHit {
        entry_id: c.raw.entry_id,
        block_id: c.raw.block_id,
        chunk_id: c.raw.chunk_id,
        similarity: c.raw.similarity,
        confidence: c.confidence,
        affinity_rank: rank,
    }
}

/// The hits of the first `n` candidates: each entry once, until there are
/// `limit`. A limit of 0 is none.
pub open spec fn hits_of(candidates: Seq<Candidate>, limit: nat, n: nat) -> Seq<AffinityHit>
    decreases n,
{
    if n == 0 {
        Seq::empty()
    } else {
        let before = hits_of(candidates, limit, (n - 1) as nat);
        let c = candidates[n - 1];
        if (limit > 0 && before.len() == limit) || is_hit(before, c.raw.entry_id) {
            before
        } else {
            before.push(hit_of(c, (before.len() + 1) as u32))
        }
    }
}

/// The ranked hits of candidates.
pub open spec fn ranked(candidates: Seq<Candidate>, limit: nat) -> Seq<AffinityHit> {
    hits_of(ordering::in_order(candidates, by_strength()), limit, candidates.len())
}

fn find_hit(hits: &Vec<AffinityHit>, entry: Id) -> (r: bool)
    ensures
        r == is_hit(hits@, entry),
{
    let mut k: usize = 0;
    while k < hits.len()
        invariant
            k <= hits.len(),
            forall|j: int| 0 <= j < k ==> (#[trigger] hits@[j]).entry_id != entry,
        decreases hits.len() - k,
    {
        if hits[k].entry_id == entry {
            return true;
        }
        k += 1;
    }
    false
}

proof fn lemma_hits_full(candidates: Seq<Candidate>, limit: nat, n: nat, m: nat)
    requires
        n <= m,
        limit > 0,
        hits_of(candidates, limit, n).len() == limit,
    ensures
        hits_of(candidates, limit, m) == hits_of(candidates, limit, n),
    decreases m,
{
    if n < m {
        lemma_hits_full(candidates, limit, n, (m - 1) as nat);
    }
}

/// Rank candidates: the most confident first, each entry by its strongest
/// example alone, up to `limit`. A limit of 0 is none.
pub fn rank_affinities(candidates: Vec<Candidate>, limit: usize) -> (hits: Vec<AffinityHit>)
    requires
        candidates.len() <= u32::MAX,
    ensures
        hits@ == ranked(candidates@, limit as nat),
{
    let ghost given = candidates@;
    let sorted = ordering::put_in_order(candidates, &());
    proof {
        ordering::lemma_own_views(given);
        ordering::lemma_own_views(sorted@);
    }
    let mut hits: Vec<AffinityHit> = Vec::new();
    let mut n: usize = 0;
    while n < sorted.len()
        invariant
            n <= sorted.len(),
            sorted.len() == given.len(),
            given == candidates@,
            given.len() <= u32::MAX,
            sorted@ == ordering::in_order(given, by_strength()),
            hits.len() <= n,
            hits@ == hits_of(sorted@, limit as nat, n as nat),
        decreases sorted.len() - n,
    {
        if limit > 0 && hits.len() == limit {
            proof {
                lemma_hits_full(sorted@, limit as nat, n as nat, sorted@.len());
            }
            return hits;
        }
        let c = sorted[n];
        if !find_hit(&hits, c.raw.entry_id) {
            let rank = hits.len() as u32 + 1;
            hits.push(
                AffinityHit {
                    entry_id: c.raw.entry_id,
                    block_id: c.raw.block_id,
                    chunk_id: c.raw.chunk_id,
                    similarity: c.raw.similarity,
                    confidence: c.confidence,
                    affinity_rank: rank,
                },
            );
        }
        n += 1;
    }
    hits
}

/// The first `n` hits, with no more than `limit` for entries that are not
/// required.
pub open spec fn chosen(
    hits: Seq<AffinityHit>,
    required: Seq<Id>,
    limit: nat,
    n: nat,
) -> Seq<AffinityHit>
    decreases n,
{
    if n == 0 {
        Seq::empty()
    } else {
        let before = chosen(hits, required, limit, (n - 1) as nat);
        let hit = hits[n - 1];
        if required.contains(hit.entry_id) || others(hits, required, (n - 1) as nat) < limit {
            before.push(hit)
        } else {
            before
        }
    }
}

/// How many of the first `n` hits are for entries that are not required.
pub open spec fn others(hits: Seq<AffinityHit>, required: Seq<Id>, n: nat) -> nat
    decreases n,
{
    if n == 0 {
        0
    } else {
        others(hits, required, (n - 1) as nat) + if required.contains(hits[n - 1].entry_id) {
            0nat
        } else {
            1nat
        }
    }
}

/// Keep every hit for a required entry, and the first `limit` of the others.
/// Hits keep the ranks that they had among all.
pub fn choose_hits(hits: &Vec<AffinityHit>, required: &Vec<Id>, limit: usize) -> (r: Vec<
    AffinityHit,
>)
    ensures
        r@ == chosen(hits@, required@, limit as nat, hits@.len()),
{
    let mut out: Vec<AffinityHit> = Vec::new();
    let mut used: usize = 0;
    let mut n: usize = 0;
    while n < hits.len()
        invariant
            n <= hits.len(),
            used <= n,
            used == others(hits@, required@, n as nat),
            out@ == chosen(hits@, required@, limit as nat, n as nat),
        decreases hits.len() - n,
    {
        let is_required = signals::contains_id(required, hits[n].entry_id);
        if is_required || used < limit {
            out.push(hits[n]);
        }
        if !is_required {
            used += 1;
        }
        n += 1;
    }
    out
}

} // verus!
