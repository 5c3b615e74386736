//! Blocks: the typed pieces that an entry consists of.
use vstd::prelude::*;
use vstd::string::*;

use crate::attrs::{self, AttrsSpec, AttrsValue};
use crate::ids::Id;
use crate::ordering::{Order, Ranked};
use crate::tables::{Copied, HasId};
use crate::time::Timestamp;

verus! {

/// A typed block that belongs to an entry.
#[derive(Debug, Clone)]
pub struct Block {
    pub id: Id,
    pub entry_id: Id,
    pub ordinal: u32,
    pub type_: String,
    pub text: String,
    pub attrs: AttrsValue,
    pub created_at: Timestamp,
    pub updated_at: Timestamp,
}

/// A block as mathematics.
#[verifier::ext_equal]
pub struct BlockRow {
    pub id: Id,
    pub entry_id: Id,
    pub ordinal: u32,
    pub type_: Seq<char>,
    pub text: Seq<char>,
    pub attrs: AttrsSpec,
    pub created_at: Timestamp,
    pub updated_at: Timestamp,
}

impl View for Block {
    type V = BlockRow;

    open spec fn view(&self) -> BlockRow {
        BlockRow {
            id: self.id,
            entry_id: self.entry_id,
            ordinal: self.ordinal,
            type_: self.type_@,
            text: self.text@,
            attrs: self.attrs@,
            created_at: self.created_at,
            updated_at: self.updated_at,
        }
    }
}

impl Copied for Block {
    fn copy(&self) -> (r: Block) {
        Block {
            id: self.id,
            entry_id: self.entry_id,
            ordinal: self.ordinal,
            type_: self.type_.clone(),
            text: self.text.clone(),
            attrs: self.attrs.copy(),
            created_at: self.created_at,
            updated_at: self.updated_at,
        }
    }
}

impl HasId for Block {
    open spec fn id_of(row: BlockRow) -> Id {
        row.id
    }

    fn row_id(&self) -> (r: Id) {
        self.id
    }
}

/// Blocks go by their ordinals.
pub open spec fn by_ordinal() -> Order<BlockRow> {
    |a: BlockRow, b: BlockRow| a.ordinal < b.ordinal
}

impl Ranked<()> for Block {
    open spec fn order(mode: ()) -> Order<BlockRow> {
        by_ordinal()
    }

    fn is_before(&self, other: &Block, mode: &()) -> (r: bool) {
        self.ordinal < other.ordinal
    }
}

/// A block to create. Attributes that are not given are none.
#[derive(Debug, Clone)]
pub struct CreateBlock {
    pub entry_id: Id,
    pub ordinal: u32,
    pub type_: String,
    pub text: String,
    pub attrs: Option<AttrsValue>,
}

/// A block to create, as mathematics.
#[verifier::ext_equal]
pub struct CreateSpec {
    pub entry_id: Id,
    pub ordinal: u32,
    pub type_: Seq<char>,
    pub text: Seq<char>,
    pub attrs: AttrsSpec,
}

impl View for CreateBlock {
    type V = CreateSpec;

    open spec fn view(&self) -> CreateSpec {
        CreateSpec {
            entry_id: self.entry_id,
            ordinal: self.ordinal,
            type_: self.type_@,
            text: self.text@,
            attrs: attrs::given(self.attrs),
        }
    }
}

/// A block of an entry to create.
#[derive(Debug, Clone)]
pub struct BlockInput {
    pub type_: String,
    pub text: String,
    pub attrs: Option<AttrsValue>,
}

/// The blocks of an entry.
#[derive(Debug, Clone)]
pub struct BlockListResult {
    pub items: Vec<Block>,
    pub total: u64,
}

} // verus!
