//! What is asked of entries, and what is answered.
use vstd::prelude::*;
use vstd::string::*;

use crate::attrs::AttrsValue;
use crate::block_model::BlockInput;
use crate::ids::Id;
use crate::model::{Entry, EntryRow, EntryRowSpec};
use crate::ordering::{Order, Ranked};
use crate::tables::Copied;
use crate::time::Timestamp;

verus! {

/// An entry to create.
#[derive(Debug, Clone)]
pub struct CreateEntry {
    pub title: String,
    pub blocks: Vec<BlockInput>,
    pub tags: Option<Vec<String>>,
    pub attrs: Option<AttrsValue>,
    pub source: Option<String>,
}

/// What is to change in an entry. What is not given stays; a source can be
/// taken away.
#[derive(Debug, Clone)]
pub struct UpdateEntry {
    pub title: Option<String>,
    pub tags: Option<Vec<String>>,
    pub attrs: Option<AttrsValue>,
    pub source: Option<Option<String>>,
}

/// The order of a listing.
#[derive(Debug, Clone, Copy, PartialEq, Eq, Structural)]
pub enum EntryListOrder {
    CreatedDesc,
    CreatedAsc,
    UpdatedDesc,
    UpdatedAsc,
}

impl Default for EntryListOrder {
    fn default() -> (r: EntryListOrder)
        ensures
            r == EntryListOrder::CreatedDesc,
    {
        EntryListOrder::CreatedDesc
    }
}

/// Entries go by when they were created or updated, one way or the other.
pub open spec fn by_time(order: EntryListOrder) -> Order<EntryRowSpec> {
    |a: EntryRowSpec, b: EntryRowSpec|
        match order {
            EntryListOrder::CreatedDesc => b.created_at.before(a.created_at),
            EntryListOrder::CreatedAsc => a.created_at.before(b.created_at),
            EntryListOrder::UpdatedDesc => b.updated_at.before(a.updated_at),
            EntryListOrder::UpdatedAsc => a.updated_at.before(b.updated_at),
        }
}

impl Ranked<EntryListOrder> for EntryRow {
    open spec fn order(mode: EntryListOrder) -> Order<EntryRowSpec> {
        by_time(mode)
    }

    fn is_before(&self, other: &EntryRow, mode: &EntryListOrder) -> (r: bool) {
        match mode {
            EntryListOrder::CreatedDesc => other.created_at.is_before(&self.created_at),
            EntryListOrder::CreatedAsc => self.created_at.is_before(&other.created_at),
            EntryListOrder::UpdatedDesc => other.updated_at.is_before(&self.updated_at),
            EntryListOrder::UpdatedAsc => self.updated_at.is_before(&other.updated_at),
        }
    }
}

/// Which entries are asked for.
#[derive(Debug, Clone)]
pub struct EntryListQuery {
    pub tag: Option<String>,
    pub limit: u32,
    pub offset: u32,
    pub order: EntryListOrder,
    /// Whether entries come with their blocks.
    pub include_blocks: Option<bool>,
    /// Only short-lived entries, or only the others.
    pub transient: Option<bool>,
}

/// How many entries a listing has where nothing else is asked for.
pub fn default_limit() -> (n: u32)
    ensures
        n == 50,
{
    50
}

impl Default for EntryListQuery {
    fn default() -> (q: EntryListQuery)
        ensures
            q.tag is None,
            q.limit == 50,
            q.offset == 0,
            q.order == EntryListOrder::CreatedDesc,
            q.include_blocks is None,
            q.transient is None,
    {
        EntryListQuery {
            tag: None,
            limit: default_limit(),
            offset: 0,
            order: EntryListOrder::CreatedDesc,
            include_blocks: None,
            transient: None,
        }
    }
}

/// One page of entries, how many there are, and whether there are more.
#[derive(Debug, Clone)]
pub struct EntryListResult {
    pub items: Vec<Entry>,
    pub total: u64,
    pub has_more: bool,
}

/// A short-lived entry that a purge would remove.
#[derive(Debug, Clone)]
pub struct TransientCandidate {
    pub id: Id,
    pub title: String,
    pub created_at: Timestamp,
}

/// A candidate as mathematics.
#[verifier::ext_equal]
pub struct CandidateSpec {
    pub id: Id,
    pub title: Seq<char>,
    pub created_at: Timestamp,
}

impl View for TransientCandidate {
    type V = CandidateSpec;

    open spec fn view(&self) -> CandidateSpec {
        CandidateSpec { id: self.id, title: self.title@, created_at: self.created_at }
    }
}

impl Copied for TransientCandidate {
    fn copy(&self) -> (r: TransientCandidate) {
        TransientCandidate {
            id: self.id,
            title: self.title.clone(),
            created_at: self.created_at,
        }
    }
}

/// Candidates go by when they were created.
pub open spec fn by_age() -> Order<CandidateSpec> {
    |a: CandidateSpec, b: CandidateSpec| a.created_at.before(b.created_at)
}

impl Ranked<()> for TransientCandidate {
    open spec fn order(mode: ()) -> Order<CandidateSpec> {
        by_age()
    }

    fn is_before(&self, other: &TransientCandidate, mode: &()) -> (r: bool) {
        self.created_at.is_before(&other.created_at)
    }
}

/// By age, and by identifier where the age is the same.
#[derive(Debug, Clone, Copy, PartialEq, Eq, Structural)]
pub struct AgeThenId;

/// Candidates go by when they were created, and then by their identifiers.
pub open spec fn by_age_and_id() -> Order<CandidateSpec> {
    |a: CandidateSpec, b: CandidateSpec|
        a.created_at.before(b.created_at) || (a.created_at == b.created_at && a.id < b.id)
}

impl Ranked<AgeThenId> for TransientCandidate {
    open spec fn order(mode: AgeThenId) -> Order<CandidateSpec> {
        by_age_and_id()
    }

    fn is_before(&self, other: &TransientCandidate, mode: &AgeThenId) -> (r: bool) {
        self.created_at.is_before(&other.created_at) || (self.created_at == other.created_at
            && self.id < other.id)
    }
}

/// How many candidates a preview shows at most.
pub const PURGE_PREVIEW_LIMIT: usize = 50;

/// What a purge of short-lived entries removed, or would remove.
#[derive(Debug, Clone)]
pub struct PurgeTransientResult {
    pub dry_run: bool,
    pub total_candidates: u64,
    pub candidates: Vec<TransientCandidate>,
    pub truncated: bool,
    pub deleted_ids: Vec<Id>,
    pub failed: Vec<(Id, String)>,
}

} // verus!
