//! Events: the log of what was changed.
use vstd::prelude::*;
use vstd::string::*;

use crate::ids::Id;
use crate::ordering::{Order, Ranked};
use crate::tables::{Copied, HasId};
use crate::time::Timestamp;

verus! {

/// An event of the log. Its payload is the JSON text of a snapshot.
#[derive(Debug, Clone)]
pub struct Event {
    pub id: Id,
    pub type_: String,
    pub target_type: String,
    pub target_id: Id,
    pub payload: String,
    pub created_at: Timestamp,
}

/// An event as mathematics.
#[verifier::ext_equal]
pub struct EventRow {
    pub id: Id,
    pub type_: Seq<char>,
    pub target_type: Seq<char>,
    pub target_id: Id,
    pub payload: Seq<char>,
    pub created_at: Timestamp,
}

impl View for Event {
    type V = EventRow;

    open spec fn view(&self) -> EventRow {
        EventRow {
            id: self.id,
            type_: self.type_@,
            target_type: self.target_type@,
            target_id: self.target_id,
            payload: self.payload@,
            created_at: self.created_at,
        }
    }
}

impl Copied for Event {
    fn copy(&self) -> (r: Event) {
        Event {
            id: self.id,
            type_: self.type_.clone(),
            target_type: self.target_type.clone(),
            target_id: self.target_id,
            payload: self.payload.clone(),
            created_at: self.created_at,
        }
    }
}

impl HasId for Event {
    open spec fn id_of(row: EventRow) -> Id {
        row.id
    }

    fn row_id(&self) -> (r: Id) {
        self.id
    }
}

/// Which end of the log comes first.
#[derive(Debug, Clone, Copy, PartialEq, Eq, Structural)]
pub enum ListOrder {
    Asc,
    Desc,
}

impl Default for ListOrder {
    fn default() -> (r: ListOrder)
        ensures
            r == ListOrder::Asc,
    {
        ListOrder::Asc
    }
}

/// Events go by their identifiers, one way or the other.
pub open spec fn by_id(order: ListOrder) -> Order<EventRow> {
    |a: EventRow, b: EventRow|
        match order {
            ListOrder::Asc => a.id < b.id,
            ListOrder::Desc => b.id < a.id,
        }
}

impl Ranked<ListOrder> for Event {
    open spec fn order(mode: ListOrder) -> Order<EventRow> {
        by_id(mode)
    }

    fn is_before(&self, other: &Event, mode: &ListOrder) -> (r: bool) {
        match mode {
            ListOrder::Asc => self.id < other.id,
            ListOrder::Desc => other.id < self.id,
        }
    }
}

/// How many events a listing has where nothing else is asked for.
pub fn default_limit() -> (n: u32)
    ensures
        n == 100,
{
    100
}

/// Which events are asked for: those after `since`, of a type, about a target.
#[derive(Debug, Clone)]
pub struct ListEventsQuery {
    pub since: Option<Id>,
    pub type_: Option<String>,
    pub target_type: Option<String>,
    pub target_id: Option<Id>,
    pub limit: u32,
    pub order: ListOrder,
}

impl Default for ListEventsQuery {
    fn default() -> (q: ListEventsQuery)
        ensures
            q.since is None,
            q.type_ is None,
            q.target_type is None,
            q.target_id is None,
            q.limit == 100,
            q.order == ListOrder::Asc,
    {
        ListEventsQuery {
            since: None,
            type_: None,
            target_type: None,
            target_id: None,
            limit: default_limit(),
            order: ListOrder::Asc,
        }
    }
}

/// The events that were asked for, and whether there are more.
#[derive(Debug, Clone)]
pub struct ListEventsResult {
    pub items: Vec<Event>,
    pub has_more: bool,
}

/// Which events to purge: those before `before`, perhaps only of a type.
#[derive(Debug, Clone)]
pub struct PurgeQuery {
    pub before: Id,
    pub type_: Option<String>,
}

/// What a change is called in the log, and what was changed. The payload is
/// the snapshot that the change gives back.
#[derive(Debug, Clone, Copy)]
pub struct EventHead {
    pub type_: &'static str,
    pub target_type: &'static str,
    pub target_id: Id,
}

/// The head of an event as mathematics.
#[verifier::ext_equal]
pub struct HeadSpec {
    pub type_: Seq<char>,
    pub target_type: Seq<char>,
    pub target_id: Id,
}

impl View for EventHead {
    type V = HeadSpec;

    open spec fn view(&self) -> HeadSpec {
        HeadSpec {
            type_: self.type_@,
            target_type: self.target_type@,
            target_id: self.target_id,
        }
    }
}

} // verus!
