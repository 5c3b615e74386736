//! The rows that adaptive memory keeps, and how rows are found and dropped.
use vstd::prelude::*;
use vstd::string::*;

use crate::ids::Id;
use crate::memory_model::SearchResultTarget;
use crate::text;
use crate::time::{self, Timestamp};

verus! {

/// A stored point in time: its text, and the time that the text names, where
/// it names one.
#[derive(Debug, Clone)]
pub struct Moment {
    pub text: String,
    pub time: Option<Timestamp>,
}

impl Moment {
    pub fn copy(&self) -> (r: Moment)
        ensures
            r == *self,
    {
        Moment { text: self.text.clone(), time: self.time }
    }

    /// A stored text, read.
    pub fn read(s: String) -> (r: Moment)
        ensures
            r.text == s,
            r.time == time::time_of_text(s@),
    {
        let time = time::parse_time(s.as_str());
        Moment { text: s, time }
    }

    /// A time, as it is stored.
    pub fn at(t: Timestamp) -> (r: Moment)
        requires
            t.valid(),
        ensures
            r.text@ == time::text_of_time(t),
            r.time == Some(t),
    {
        Moment { text: time::time_text(t), time: Some(t) }
    }
}

/// A remembered search.
#[derive(Debug, Clone)]
pub struct Session {
    pub id: Id,
    pub raw_query_text: String,
    pub effective_query_text: String,
    pub query_embedding: Vec<u8>,
    pub embedding_model: String,
    pub embedding_dim: i64,
    pub created_at: Moment,
    pub expires_at: Moment,
}

/// A result that a remembered search returned.
#[derive(Debug, Clone, Copy, PartialEq, Eq, Structural)]
pub struct SessionResult {
    pub search_id: Id,
    pub target: SearchResultTarget,
}

/// That feedback for an entry was accepted once for a search.
#[derive(Debug, Clone)]
pub struct Receipt {
    pub id: Id,
    pub search_id: Id,
    pub entry_id: Id,
    pub block_id: Option<Id>,
    pub chunk_id: Option<Id>,
    pub created_at: Moment,
}

/// How often, and when last, an entry was reinforced.
#[derive(Debug, Clone)]
pub struct EntryStats {
    pub entry_id: Id,
    pub reinforcement_count: u8,
    pub last_reinforced_at: Moment,
    pub updated_at: Moment,
}

/// A learned query example: a query, and the place it led to.
#[derive(Debug, Clone)]
pub struct Affinity {
    pub id: Id,
    pub query_hash: String,
    pub raw_query_text: String,
    pub effective_query_text: String,
    pub embedding_model: String,
    pub embedding_dim: i64,
    pub entry_id: Id,
    pub block_id: Option<Id>,
    pub chunk_id: Option<Id>,
    pub reinforcement_count: u8,
    pub last_reinforced_at: Moment,
    pub created_at: Moment,
    pub updated_at: Moment,
}

/// The vector of a learned query example.
#[derive(Debug, Clone)]
pub struct AffinityVector {
    pub affinity_id: Id,
    pub embedding: Vec<u8>,
}

/// Vectors as mathematics: each example's identifier with its bytes.
pub type Vectors = Seq<(Id, Seq<u8>)>;

/// The vectors that a list holds.
pub open spec fn vectors_of(rows: Seq<AffinityVector>) -> Vectors {
    rows.map_values(|v: AffinityVector| (v.affinity_id, v.embedding@))
}

/// Where precise targets live: each block's entry and each chunk's block.
#[derive(Debug, Clone)]
pub struct ContentIndex {
    pub entries: Vec<Id>,
    /// Block and its entry.
    pub blocks: Vec<(Id, Id)>,
    /// Chunk and its block.
    pub chunks: Vec<(Id, Id)>,
}

impl ContentIndex {
    /// The entry exists.
    pub open spec fn has_entry(&self, entry: Id) -> bool {
        self.entries@.contains(entry)
    }

    /// The block belongs to the entry.
    pub open spec fn owns_block(&self, entry: Id, block: Id) -> bool {
        self.blocks@.contains((block, entry))
    }

    /// The chunk is one of the block, which belongs to the entry.
    pub open spec fn owns_chunk(&self, entry: Id, block: Id, chunk: Id) -> bool {
        self.chunks@.contains((chunk, block)) && self.owns_block(entry, block)
    }

    /// Each chunk has one block.
    pub open spec fn well_formed(&self) -> bool {
        forall|i: int, j: int|
            0 <= i < j < self.chunks@.len() ==> (#[trigger] self.chunks@[i]).0 != (
            #[trigger] self.chunks@[j]).0
    }

    pub fn is_entry(&self, entry: Id) -> (r: bool)
        ensures
            r == self.has_entry(entry),
    {
        contains_id(&self.entries, entry)
    }

    pub fn is_block_of(&self, entry: Id, block: Id) -> (r: bool)
        ensures
            r == self.owns_block(entry, block),
    {
        let mut i: usize = 0;
        while i < self.blocks.len()
            invariant
                i <= self.blocks.len(),
                forall|j: int| 0 <= j < i ==> self.blocks@[j] != (block, entry),
            decreases self.blocks.len() - i,
        {
            if self.blocks[i].0 == block && self.blocks[i].1 == entry {
                proof {
                    assert(self.blocks@[i as int] == (block, entry));
                }
                return true;
            }
            i += 1;
        }
        false
    }

    /// The block of `entry` that the chunk stands in: the first one recorded.
    pub open spec fn parent_in(&self, entry: Id, chunk: Id, n: nat) -> Option<Id>
        decreases n,
    {
        if n == 0 {
            None
        } else {
            match self.parent_in(entry, chunk, (n - 1) as nat) {
                Some(block) => Some(block),
                None => {
                    let row = self.chunks@[n - 1];
                    if row.0 == chunk && self.owns_block(entry, row.1) {
                        Some(row.1)
                    } else {
                        None
                    }
                },
            }
        }
    }

    /// The block of `entry` that the chunk stands in.
    pub open spec fn chunk_parent(&self, entry: Id, chunk: Id) -> Option<Id> {
        self.parent_in(entry, chunk, self.chunks@.len())
    }

    proof fn lemma_parent(&self, entry: Id, chunk: Id, n: nat)
        requires
            n <= self.chunks@.len(),
        ensures
            match self.parent_in(entry, chunk, n) {
                Some(block) => exists|i: int|
                    0 <= i < n && #[trigger] self.chunks@[i] == (chunk, block) && self.owns_block(
                        entry,
                        block,
                    ),
                None => forall|i: int|
                    0 <= i < n && (#[trigger] self.chunks@[i]).0 == chunk ==> !self.owns_block(
                        entry,
                        self.chunks@[i].1,
                    ),
            },
        decreases n,
    {
        if n > 0 {
            self.lemma_parent(entry, chunk, (n - 1) as nat);
            match self.parent_in(entry, chunk, (n - 1) as nat) {
                Some(block) => {
                    let i = choose|i: int|
                        0 <= i < n - 1 && #[trigger] self.chunks@[i] == (chunk, block);
                    assert(self.chunks@[i] == (chunk, block));
                },
                None => {
                    let row = self.chunks@[n - 1];
                    if row.0 == chunk && self.owns_block(entry, row.1) {
                        assert(self.chunks@[n - 1] == (chunk, row.1));
                    }
                },
            }
        }
    }

    /// A chunk's parent is a block of the entry that has the chunk; there is
    /// none only where no block of the entry has it.
    pub proof fn law_chunk_parent(&self, entry: Id, chunk: Id)
        ensures
            match self.chunk_parent(entry, chunk) {
                Some(block) => self.owns_chunk(entry, block, chunk),
                None => forall|block: Id| !self.owns_chunk(entry, block, chunk),
            },
    {
        self.lemma_parent(entry, chunk, self.chunks@.len());
        if self.chunk_parent(entry, chunk) is None {
            assert forall|block: Id| !self.owns_chunk(entry, block, chunk) by {
                if self.owns_chunk(entry, block, chunk) {
                    let i = choose|i: int|
                        0 <= i < self.chunks@.len() && self.chunks@[i] == (chunk, block);
                    assert(self.chunks@[i].0 == chunk);
                }
            }
        }
    }

    pub fn parent_of_chunk(&self, entry: Id, chunk: Id) -> (r: Option<Id>)
        ensures
            r == self.chunk_parent(entry, chunk),
    {
        let mut i: usize = 0;
        let mut found: Option<Id> = None;
        while i < self.chunks.len()
            invariant
                i <= self.chunks.len(),
                found == self.parent_in(entry, chunk, i as nat),
            decreases self.chunks.len() - i,
        {
            if found.is_none() {
                let row = self.chunks[i];
                if row.0 == chunk && self.is_block_of(entry, row.1) {
                    found = Some(row.1);
                }
            }
            i += 1;
        }
        found
    }
}

/// Whether `ids` holds `id`.
pub fn contains_id(ids: &Vec<Id>, id: Id) -> (r: bool)
    ensures
        r == ids@.contains(id),
{
    let mut i: usize = 0;
    while i < ids.len()
        invariant
            i <= ids.len(),
            forall|j: int| 0 <= j < i ==> ids@[j] != id,
        decreases ids.len() - i,
    {
        if ids[i] == id {
            return true;
        }
        i += 1;
    }
    false
}

/// One more row of a filtered table.
pub proof fn lemma_filter_take<A>(s: Seq<A>, i: int, keep: spec_fn(A) -> bool)
    requires
        0 <= i < s.len(),
    ensures
        s.take(i + 1).filter(keep) == if keep(s[i]) {
            s.take(i).filter(keep).push(s[i])
        } else {
            s.take(i).filter(keep)
        },
{
    reveal(Seq::filter);
    assert(s.take(i + 1).drop_last() =~= s.take(i));
}

/// The rows of a filtered table are rows of the table that are kept, and no
/// kept row is lost.
pub proof fn lemma_filter_rows<A>(s: Seq<A>, keep: spec_fn(A) -> bool)
    ensures
        forall|x: A| #[trigger] s.filter(keep).contains(x) <==> s.contains(x) && keep(x),
        s.filter(keep).len() <= s.len(),
    decreases s.len(),
{
    reveal(Seq::filter);
    if s.len() > 0 {
        let head = s.drop_last();
        lemma_filter_rows(head, keep);
        assert(s =~= head.push(s.last()));
        assert forall|x: A| #[trigger] s.filter(keep).contains(x) <==> s.contains(x) && keep(x) by {
            if s.contains(x) {
                let i = choose|i: int| 0 <= i < s.len() && s[i] == x;
                if i < head.len() {
                    assert(head[i] == x);
                    assert(head.contains(x));
                }
            }
            if head.contains(x) {
                let i = choose|i: int| 0 <= i < head.len() && head[i] == x;
                assert(s[i] == x);
            }
            if keep(s.last()) {
                let out = head.filter(keep).push(s.last());
                assert(s.filter(keep) == out);
                if out.contains(x) {
                    let i = choose|i: int| 0 <= i < out.len() && out[i] == x;
                    if i < head.filter(keep).len() {
                        assert(head.filter(keep)[i] == x);
                        assert(head.filter(keep).contains(x));
                    } else {
                        assert(s[s.len() - 1] == x);
                    }
                }
                if head.filter(keep).contains(x) {
                    let i = choose|i: int|
                        0 <= i < head.filter(keep).len() && head.filter(keep)[i] == x;
                    assert(out[i] == x);
                }
                if x == s.last() {
                    assert(out[out.len() - 1] == x);
                }
            }
        }
    }
}

/// A filtered table holds its rows in the table's order: two rows of it were
/// two rows of the table.
pub proof fn lemma_filter_order<A>(s: Seq<A>, keep: spec_fn(A) -> bool, i: int, j: int) -> (r: (
    int,
    int,
))
    requires
        0 <= i < j < s.filter(keep).len(),
    ensures
        0 <= r.0 < r.1 < s.len(),
        s[r.0] == s.filter(keep)[i],
        s[r.1] == s.filter(keep)[j],
    decreases s.len(),
{
    reveal(Seq::filter);
    let head = s.drop_last();
    if keep(s.last()) && j == s.filter(keep).len() - 1 {
        lemma_filter_rows(head, keep);
        assert(head.filter(keep)[i] == s.filter(keep)[i]);
        assert(head.filter(keep).contains(s.filter(keep)[i]));
        let a = choose|a: int| 0 <= a < head.len() && head[a] == s.filter(keep)[i];
        (a, s.len() - 1)
    } else {
        let r = lemma_filter_order(head, keep, i, j);
        assert(head.filter(keep)[i] == s.filter(keep)[i]);
        assert(head.filter(keep)[j] == s.filter(keep)[j]);
        r
    }
}

impl Affinity {
    /// The example is of that query and leads to that place.
    pub open spec fn has_target(
        self,
        query_hash: Seq<char>,
        model: Seq<char>,
        entry: Id,
        block: Option<Id>,
        chunk: Option<Id>,
    ) -> bool {
        &&& self.query_hash@ == query_hash
        &&& self.embedding_model@ == model
        &&& self.entry_id == entry
        &&& self.block_id == block
        &&& self.chunk_id == chunk
    }

    pub fn copy(&self) -> (r: Affinity)
        ensures
            r == *self,
    {
        Affinity {
            id: self.id,
            query_hash: self.query_hash.clone(),
            raw_query_text: self.raw_query_text.clone(),
            effective_query_text: self.effective_query_text.clone(),
            embedding_model: self.embedding_model.clone(),
            embedding_dim: self.embedding_dim,
            entry_id: self.entry_id,
            block_id: self.block_id,
            chunk_id: self.chunk_id,
            reinforcement_count: self.reinforcement_count,
            last_reinforced_at: self.last_reinforced_at.copy(),
            created_at: self.created_at.copy(),
            updated_at: self.updated_at.copy(),
        }
    }

    pub fn is_target(
        &self,
        query_hash: &str,
        model: &str,
        entry: Id,
        block: Option<Id>,
        chunk: Option<Id>,
    ) -> (r: bool)
        ensures
            r == self.has_target(query_hash@, model@, entry, block, chunk),
    {
        self.entry_id == entry && same_id(self.block_id, block) && same_id(self.chunk_id, chunk)
            && text::same(self.query_hash.as_str(), query_hash) && text::same(
            self.embedding_model.as_str(),
            model,
        )
    }
}

/// Whether two optional identifiers are equal.
pub fn same_id(a: Option<Id>, b: Option<Id>) -> (r: bool)
    ensures
        r == (a == b),
{
    match (a, b) {
        (Some(x), Some(y)) => x == y,
        (None, None) => true,
        _ => false,
    }
}

} // verus!
