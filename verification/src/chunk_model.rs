//! Chunks: the pieces of a block that are embedded.
use vstd::prelude::*;
use vstd::string::*;

use crate::attrs::{AttrsSpec, AttrsValue};
use crate::float_bits::F32Bits;
use crate::ids::Id;
use crate::ordering::{Order, Ranked};
use crate::tables::{Copied, HasId};
use crate::time::Timestamp;

verus! {

/// A chunk of a block, derived from its text.
#[derive(Debug, Clone)]
pub struct Chunk {
    pub id: Id,
    pub block_id: Id,
    pub ordinal: u32,
    pub text: String,
    pub attrs: AttrsValue,
    pub created_at: Timestamp,
    pub updated_at: Timestamp,
}

/// A chunk as mathematics.
#[verifier::ext_equal]
pub struct ChunkRow {
    pub id: Id,
    pub block_id: Id,
    pub ordinal: u32,
    pub text: Seq<char>,
    pub attrs: AttrsSpec,
    pub created_at: Timestamp,
    pub updated_at: Timestamp,
}

impl View for Chunk {
    type V = ChunkRow;

    open spec fn view(&self) -> ChunkRow {
        ChunkRow {
            id: self.id,
            block_id: self.block_id,
            ordinal: self.ordinal,
            text: self.text@,
            attrs: self.attrs@,
            created_at: self.created_at,
            updated_at: self.updated_at,
        }
    }
}

impl Copied for Chunk {
    fn copy(&self) -> (r: Chunk) {
        Chunk {
            id: self.id,
            block_id: self.block_id,
            ordinal: self.ordinal,
            text: self.text.clone(),
            attrs: self.attrs.copy(),
            created_at: self.created_at,
            updated_at: self.updated_at,
        }
    }
}

impl HasId for Chunk {
    open spec fn id_of(row: ChunkRow) -> Id {
        row.id
    }

    fn row_id(&self) -> (r: Id) {
        self.id
    }
}

/// Chunks go by their ordinals.
pub open spec fn by_ordinal() -> Order<ChunkRow> {
    |a: ChunkRow, b: ChunkRow| a.ordinal < b.ordinal
}

impl Ranked<()> for Chunk {
    open spec fn order(mode: ()) -> Order<ChunkRow> {
        by_ordinal()
    }

    fn is_before(&self, other: &Chunk, mode: &()) -> (r: bool) {
        self.ordinal < other.ordinal
    }
}

/// The chunks of a block.
#[derive(Debug, Clone)]
pub struct ChunkListResult {
    pub items: Vec<Chunk>,
    pub total: u64,
}

/// A chunk that a semantic search found.
#[derive(Debug, Clone)]
pub struct ChunkSearchResult {
    pub chunk: Chunk,
    pub entry_id: Id,
    pub score: F32Bits,
}

/// A chunk that was found, as mathematics.
#[verifier::ext_equal]
pub struct FoundSpec {
    pub chunk: ChunkRow,
    pub entry_id: Id,
    pub score: F32Bits,
}

impl View for ChunkSearchResult {
    type V = FoundSpec;

    open spec fn view(&self) -> FoundSpec {
        FoundSpec { chunk: self.chunk@, entry_id: self.entry_id, score: self.score }
    }
}

/// What became of a vector table when its dimension was checked.
#[derive(Debug, Clone, Copy, PartialEq, Eq, Structural)]
pub enum DimReconciliation {
    Created { dim: usize },
    Consistent { dim: usize },
    Recreated { from: usize, to: usize },
}

} // verus!
