//! Conversations: sequences of turns.
use vstd::prelude::*;
use vstd::string::*;

use crate::attrs::{AttrsSpec, AttrsValue};
use crate::content::Owned;
use crate::float_bits::F32Bits;
use crate::ids::Id;
use crate::ordering::{Order, Ranked};
use crate::tables::{self, Copied, HasId};
use crate::text;
use crate::time::Timestamp;

verus! {

/// A conversation, without its turns.
#[derive(Debug, Clone)]
pub struct Conversation {
    pub id: Id,
    pub title: String,
    pub tags: Vec<String>,
    pub attrs: AttrsValue,
    pub turn_count: u32,
    pub created_at: Timestamp,
    pub updated_at: Timestamp,
}

/// A conversation as mathematics.
#[verifier::ext_equal]
pub struct ConversationRow {
    pub id: Id,
    pub title: Seq<char>,
    pub tags: Seq<Seq<char>>,
    pub attrs: AttrsSpec,
    pub turn_count: u32,
    pub created_at: Timestamp,
    pub updated_at: Timestamp,
}

impl View for Conversation {
    type V = ConversationRow;

    open spec fn view(&self) -> ConversationRow {
        ConversationRow {
            id: self.id,
            title: self.title@,
            tags: text::texts(self.tags@),
            attrs: self.attrs@,
            turn_count: self.turn_count,
            created_at: self.created_at,
            updated_at: self.updated_at,
        }
    }
}

impl Copied for Conversation {
    fn copy(&self) -> (r: Conversation) {
        Conversation {
            id: self.id,
            title: self.title.clone(),
            tags: tables::copy_texts(&self.tags),
            attrs: self.attrs.copy(),
            turn_count: self.turn_count,
            created_at: self.created_at,
            updated_at: self.updated_at,
        }
    }
}

impl HasId for Conversation {
    open spec fn id_of(row: ConversationRow) -> Id {
        row.id
    }

    fn row_id(&self) -> (r: Id) {
        self.id
    }
}

/// One message of a conversation.
#[derive(Debug, Clone)]
pub struct Turn {
    pub id: Id,
    pub conversation_id: Id,
    pub ordinal: u32,
    pub role: String,
    pub content: String,
    pub attrs: AttrsValue,
    pub created_at: Timestamp,
}

/// A turn as mathematics.
#[verifier::ext_equal]
pub struct TurnRow {
    pub id: Id,
    pub conversation_id: Id,
    pub ordinal: u32,
    pub role: Seq<char>,
    pub content: Seq<char>,
    pub attrs: AttrsSpec,
    pub created_at: Timestamp,
}

impl View for Turn {
    type V = TurnRow;

    open spec fn view(&self) -> TurnRow {
        TurnRow {
            id: self.id,
            conversation_id: self.conversation_id,
            ordinal: self.ordinal,
            role: self.role@,
            content: self.content@,
            attrs: self.attrs@,
            created_at: self.created_at,
        }
    }
}

impl Copied for Turn {
    fn copy(&self) -> (r: Turn) {
        Turn {
            id: self.id,
            conversation_id: self.conversation_id,
            ordinal: self.ordinal,
            role: self.role.clone(),
            content: self.content.clone(),
            attrs: self.attrs.copy(),
            created_at: self.created_at,
        }
    }
}

impl Owned for Turn {
    open spec fn owner_of(row: TurnRow) -> Id {
        row.conversation_id
    }

    fn owner(&self) -> (r: Id) {
        self.conversation_id
    }
}

/// Turns go by their ordinals.
pub open spec fn by_ordinal() -> Order<TurnRow> {
    |a: TurnRow, b: TurnRow| a.ordinal < b.ordinal
}

impl HasId for Turn {
    open spec fn id_of(row: TurnRow) -> Id {
        row.id
    }

    fn row_id(&self) -> (r: Id) {
        self.id
    }
}

impl Ranked<()> for Turn {
    open spec fn order(mode: ()) -> Order<TurnRow> {
        by_ordinal()
    }

    fn is_before(&self, other: &Turn, mode: &()) -> (r: bool) {
        self.ordinal < other.ordinal
    }
}

/// A conversation to create, perhaps with its first turns.
#[derive(Debug, Clone)]
pub struct CreateConversation {
    pub title: Option<String>,
    pub tags: Option<Vec<String>>,
    pub attrs: Option<AttrsValue>,
    pub turns: Option<Vec<CreateTurn>>,
}

/// A turn to create.
#[derive(Debug, Clone)]
pub struct CreateTurn {
    pub role: String,
    pub content: String,
    pub attrs: Option<AttrsValue>,
}

/// Turns to append to a conversation.
#[derive(Debug, Clone)]
pub struct AppendTurns {
    pub conversation_id: Id,
    pub turns: Vec<CreateTurn>,
}

/// What is to change in a conversation. What is not given stays.
#[derive(Debug, Clone)]
pub struct UpdateConversation {
    pub title: Option<String>,
    pub tags: Option<Vec<String>>,
    pub attrs: Option<AttrsValue>,
}

/// The order of a listing.
#[derive(Debug, Clone, Copy, PartialEq, Eq, Structural)]
pub enum ConversationListOrder {
    CreatedDesc,
    CreatedAsc,
    UpdatedDesc,
    UpdatedAsc,
}

impl Default for ConversationListOrder {
    fn default() -> (r: ConversationListOrder)
        ensures
            r == ConversationListOrder::CreatedDesc,
    {
        ConversationListOrder::CreatedDesc
    }
}

/// Conversations go by when they were created or updated, one way or the other.
pub open spec fn by_time(order: ConversationListOrder) -> Order<ConversationRow> {
    |a: ConversationRow, b: ConversationRow|
        match order {
            ConversationListOrder::CreatedDesc => b.created_at.before(a.created_at),
            ConversationListOrder::CreatedAsc => a.created_at.before(b.created_at),
            ConversationListOrder::UpdatedDesc => b.updated_at.before(a.updated_at),
            ConversationListOrder::UpdatedAsc => a.updated_at.before(b.updated_at),
        }
}

impl Ranked<ConversationListOrder> for Conversation {
    open spec fn order(mode: ConversationListOrder) -> Order<ConversationRow> {
        by_time(mode)
    }

    fn is_before(&self, other: &Conversation, mode: &ConversationListOrder) -> (r: bool) {
        match mode {
            ConversationListOrder::CreatedDesc => other.created_at.is_before(&self.created_at),
            ConversationListOrder::CreatedAsc => self.created_at.is_before(&other.created_at),
            ConversationListOrder::UpdatedDesc => other.updated_at.is_before(&self.updated_at),
            ConversationListOrder::UpdatedAsc => self.updated_at.is_before(&other.updated_at),
        }
    }
}

/// Which conversations are asked for.
#[derive(Debug, Clone)]
pub struct ConversationListQuery {
    pub tag: Option<String>,
    pub limit: u32,
    pub offset: u32,
    pub order: ConversationListOrder,
    pub transient: Option<bool>,
}

/// How many conversations a listing has where nothing else is asked for.
pub fn default_conversation_limit() -> (n: u32)
    ensures
        n == 50,
{
    50
}

impl Default for ConversationListQuery {
    fn default() -> (q: ConversationListQuery)
        ensures
            q.tag is None,
            q.limit == 50,
            q.offset == 0,
            q.order == ConversationListOrder::CreatedDesc,
            q.transient is None,
    {
        ConversationListQuery {
            tag: None,
            limit: default_conversation_limit(),
            offset: 0,
            order: ConversationListOrder::CreatedDesc,
            transient: None,
        }
    }
}

/// One page of conversations, how many there are, and whether there are more.
#[derive(Debug, Clone)]
pub struct ConversationListResult {
    pub items: Vec<Conversation>,
    pub total: u64,
    pub has_more: bool,
}

/// A conversation with its turns.
#[derive(Debug, Clone)]
pub struct ConversationWithTurns {
    pub conversation: Conversation,
    pub turns: Vec<Turn>,
}

/// A turn that a search found.
#[derive(Debug, Clone)]
pub struct ConversationSearchResult {
    pub conversation: Conversation,
    pub turn: Turn,
    pub snippet: String,
    pub score: F32Bits,
}

} // verus!
