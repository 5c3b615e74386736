//! Links: directed edges between entries.
use vstd::prelude::*;
use vstd::string::*;

use crate::attrs::{AttrsSpec, AttrsValue};
use crate::ids::Id;
use crate::model::Entry;
use crate::ordering::{Order, Ranked};
use crate::tables::{Copied, HasId};
use crate::time::Timestamp;

verus! {

/// A directed link between two entries.
#[derive(Debug, Clone)]
pub struct Link {
    pub id: Id,
    pub source_id: Id,
    pub target_id: Id,
    pub relation: String,
    pub attrs: AttrsValue,
    pub created_at: Timestamp,
}

/// A link as mathematics.
#[verifier::ext_equal]
pub struct LinkRow {
    pub id: Id,
    pub source_id: Id,
    pub target_id: Id,
    pub relation: Seq<char>,
    pub attrs: AttrsSpec,
    pub created_at: Timestamp,
}

impl View for Link {
    type V = LinkRow;

    open spec fn view(&self) -> LinkRow {
        LinkRow {
            id: self.id,
            source_id: self.source_id,
            target_id: self.target_id,
            relation: self.relation@,
            attrs: self.attrs@,
            created_at: self.created_at,
        }
    }
}

impl Copied for Link {
    fn copy(&self) -> (r: Link) {
        Link {
            id: self.id,
            source_id: self.source_id,
            target_id: self.target_id,
            relation: self.relation.clone(),
            attrs: self.attrs.copy(),
            created_at: self.created_at,
        }
    }
}

impl HasId for Link {
    open spec fn id_of(row: LinkRow) -> Id {
        row.id
    }

    fn row_id(&self) -> (r: Id) {
        self.id
    }
}

/// Links go by when they were created, and then by their identifiers.
pub open spec fn by_creation() -> Order<LinkRow> {
    |a: LinkRow, b: LinkRow|
        a.created_at.before(b.created_at) || (a.created_at == b.created_at && a.id < b.id)
}

impl Ranked<()> for Link {
    open spec fn order(mode: ()) -> Order<LinkRow> {
        by_creation()
    }

    fn is_before(&self, other: &Link, mode: &()) -> (r: bool) {
        self.created_at.is_before(&other.created_at) || (self.created_at == other.created_at
            && self.id < other.id)
    }
}

/// A link to create. Attributes that are not given are none.
#[derive(Debug, Clone)]
pub struct CreateLink {
    pub source_id: Id,
    pub target_id: Id,
    pub relation: String,
    pub attrs: Option<AttrsValue>,
}

/// Which links are asked for.
#[derive(Debug, Clone)]
pub struct ListLinkQuery {
    pub from: Option<Id>,
    pub to: Option<Id>,
    pub relation: Option<String>,
    pub limit: u32,
    pub offset: u32,
}

/// One page of links, and how many there are in all.
#[derive(Debug, Clone)]
pub struct ListLinkResult {
    pub items: Vec<Link>,
    pub total: u64,
}

/// Which way links are followed.
#[derive(Debug, Clone, Copy, PartialEq, Eq, Structural)]
pub enum Direction {
    Out,
    In,
    Both,
}

/// Whose neighbours are asked for.
#[derive(Debug, Clone)]
pub struct NeighborsQuery {
    pub id: Id,
    pub direction: Direction,
    pub relation: Option<String>,
    pub limit: u32,
}

/// Neighbouring entries, each once, and the links that lead to them.
#[derive(Debug, Clone)]
pub struct NeighborsResult {
    pub entries: Vec<Entry>,
    pub links: Vec<Link>,
}

} // verus!
