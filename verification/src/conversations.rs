//! Conversations and their turns: creating, appending, changing, listing and
//! deleting them.
use vstd::prelude::*;
use vstd::string::*;

use crate::attrs;
use crate::blocks;
use crate::content;
use crate::conversation_model::{
    self, AppendTurns, Conversation, ConversationListQuery, ConversationListResult, ConversationRow,
    ConversationSearchResult, ConversationWithTurns, CreateConversation, CreateTurn, Turn, TurnRow,
    UpdateConversation,
};
use crate::error::{CoreError, CoreFault};
use crate::event_model::{EventHead, HeadSpec};
use crate::float_bits::F32Bits;
use crate::ids::Id;
use crate::ordering;
use crate::signals;
use crate::snippet;
use crate::tables::{self, Copied};
use crate::text;
use crate::time::Timestamp;
use crate::visibility;

verus! {

/// All conversations.
#[derive(Debug, Clone)]
pub struct ConversationDb {
    pub conversations: Vec<Conversation>,
    pub turns: Vec<Turn>,
}

/// All conversations as mathematics.
#[verifier::ext_equal]
pub struct ConversationSpec {
    pub conversations: Seq<ConversationRow>,
    pub turns: Seq<TurnRow>,
}

impl View for ConversationDb {
    type V = ConversationSpec;

    open spec fn view(&self) -> ConversationSpec {
        ConversationSpec {
            conversations: ordering::views(self.conversations@),
            turns: ordering::views(self.turns@),
        }
    }
}

/// What is said of a turn's attributes that are not an object.
pub open spec fn turn_attrs_fault() -> CoreFault {
    CoreFault::Validation("turn attrs must be a JSON object"@)
}

/// The turn at `i` of those to create; the first of them gets `first`.
pub open spec fn new_turn(
    turns: Seq<CreateTurn>,
    conversation: Id,
    first: u32,
    ids: Seq<Id>,
    now: Timestamp,
    i: int,
) -> TurnRow {
    TurnRow {
        id: ids[i],
        conversation_id: conversation,
        ordinal: (first + i) as u32,
        role: turns[i].role@,
        content: turns[i].content@,
        attrs: attrs::given(turns[i].attrs),
        created_at: now,
    }
}

/// All turns to create.
pub open spec fn new_turns(
    turns: Seq<CreateTurn>,
    conversation: Id,
    first: u32,
    ids: Seq<Id>,
    now: Timestamp,
) -> Seq<TurnRow> {
    Seq::new(turns.len(), |i: int| new_turn(turns, conversation, first, ids, now, i))
}

/// Every turn's attributes are an object.
pub open spec fn turns_valid(turns: Seq<CreateTurn>) -> bool {
    forall|i: int| 0 <= i < turns.len() ==> attrs::given((#[trigger] turns[i]).attrs) is Object
}

/// Make the turns to create. Gives nothing where one has attributes that are
/// not an object.
fn make_turns(
    turns: Vec<CreateTurn>,
    conversation: Id,
    first: u32,
    ids: &Vec<Id>,
    now: Timestamp,
) -> (r: Result<Vec<Turn>, CoreError>)
    requires
        ids.len() >= turns.len(),
        first + turns.len() <= u32::MAX,
    ensures
        match r {
            Ok(made) => turns_valid(turns@) && ordering::views(made@) == new_turns(
                turns@,
                conversation,
                first,
                ids@,
                now,
            ),
            Err(e) => !turns_valid(turns@) && e@ == turn_attrs_fault(),
        },
{
    let ghost all = turns@;
    let total = turns.len();
    let ghost rows = new_turns(all, conversation, first, ids@, now);
    let mut out: Vec<Turn> = Vec::new();
    let mut i: usize = 0;
    proof {
        assert(ordering::views(out@) =~= rows.take(0));
    }
    for turn in it: turns
        invariant
            it.seq() == all,
            all == turns@,
            total == all.len(),
            i == it.index(),
            ids.len() >= total,
            first + total <= u32::MAX,
            rows == new_turns(all, conversation, first, ids@, now),
            ordering::views(out@) == rows.take(i as int),
            forall|k: int| 0 <= k < i ==> attrs::given((#[trigger] all[k]).attrs) is Object,
    {
        let ghost given = turn;
        let CreateTurn { role, content, attrs } = turn;
        let attrs = attrs::or_empty(attrs);
        if !attrs.is_object() {
            proof {
                assert(all[i as int] == given);
            }
            return Err(CoreError::validation("turn attrs must be a JSON object"));
        }
        let made = Turn {
            id: ids[i],
            conversation_id: conversation,
            ordinal: first + i as u32,
            role,
            content,
            attrs,
            created_at: now,
        };
        let ghost before = out@;
        let ghost row = made@;
        out.push(made);
        proof {
            assert(row == rows[i as int]);
            assert(ordering::views(out@) =~= ordering::views(before).push(row));
            assert(rows.take(i + 1) =~= rows.take(i as int).push(rows[i as int]));
        }
        i += 1;
    }
    proof {
        assert(rows.take(i as int) =~= rows);
    }
    Ok(out)
}

/// The turns that come with a new conversation.
pub open spec fn first_turns(p: CreateConversation) -> Seq<CreateTurn> {
    match p.turns {
        Some(t) => t@,
        None => Seq::empty(),
    }
}

/// The conversation that is created. It counts its first turns.
pub open spec fn new_conversation(p: CreateConversation, id: Id, now: Timestamp) -> ConversationRow {
    ConversationRow {
        id,
        title: match p.title {
            Some(t) => t@,
            None => Seq::empty(),
        },
        tags: match p.tags {
            Some(t) => text::texts(t@),
            None => Seq::empty(),
        },
        attrs: attrs::given(p.attrs),
        turn_count: first_turns(p).len() as u32,
        created_at: now,
        updated_at: now,
    }
}

/// Why a conversation cannot be created.
pub open spec fn create_fault(p: CreateConversation) -> Option<CoreFault> {
    if !(attrs::given(p.attrs) is Object) {
        Some(blocks::attrs_fault())
    } else if !turns_valid(first_turns(p)) {
        Some(turn_attrs_fault())
    } else {
        None
    }
}

/// The head of an event about a conversation.
pub open spec fn conversation_event(type_: Seq<char>, id: Id) -> HeadSpec {
    HeadSpec { type_, target_type: "conversation"@, target_id: id }
}

fn turns_appended(turns: Vec<Turn>, more: Vec<Turn>) -> (r: Vec<Turn>)
    ensures
        ordering::views(r@) == ordering::views(turns@) + ordering::views(more@),
{
    let ghost (a, b) = (turns@, more@);
    let mut out = turns;
    let mut rest = more;
    out.append(&mut rest);
    proof {
        assert(ordering::views(out@) =~= ordering::views(a) + ordering::views(b));
    }
    out
}

/// Create a conversation, with its first turns where there are any. One turn
/// that is refused refuses the whole.
pub fn create_conversation(
    db: ConversationDb,
    p: CreateConversation,
    id: Id,
    turn_ids: &Vec<Id>,
    now: Timestamp,
) -> (r: Result<(ConversationDb, ConversationWithTurns, EventHead), CoreError>)
    requires
        turn_ids.len() >= first_turns(p).len(),
        first_turns(p).len() <= u32::MAX,
    ensures
        match r {
            Ok((after, made, event)) => {
                let rows = new_turns(first_turns(p), id, 0, turn_ids@, now);
                &&& create_fault(p) is None
                &&& made.conversation@ == new_conversation(p, id, now)
                &&& ordering::views(made.turns@) == rows
                &&& after@.conversations == db@.conversations.push(made.conversation@)
                &&& after@.turns == db@.turns + rows
                &&& event@ == conversation_event("conversation.created"@, id)
            },
            Err(e) => create_fault(p) == Some(e@),
        },
{
    let ghost given = p;
    let CreateConversation { title, tags, attrs, turns } = p;
    let attrs = attrs::or_empty(attrs);
    if !attrs.is_object() {
        return Err(CoreError::validation("attrs must be a JSON object"));
    }
    let turns = match turns {
        Some(t) => t,
        None => Vec::new(),
    };
    proof {
        assert(turns@ =~= first_turns(given));
    }
    let count = turns.len() as u32;
    let made = match make_turns(turns, id, 0, turn_ids, now) {
        Ok(made) => made,
        Err(e) => {
            return Err(e);
        },
    };
    let title = match title {
        Some(t) => t,
        None => String::new(),
    };
    let tags = match tags {
        Some(t) => t,
        None => Vec::new(),
    };
    let conversation = Conversation {
        id,
        title,
        tags,
        attrs,
        turn_count: count,
        created_at: now,
        updated_at: now,
    };
    proof {
        if given.tags is None {
            assert(text::texts(conversation.tags@) =~= Seq::empty());
        }
        if given.title is None {
            assert(conversation.title@ =~= Seq::empty());
        }
        assert(conversation@ == new_conversation(given, id, now));
    }
    let snapshot = ConversationWithTurns {
        conversation: conversation.copy(),
        turns: tables::copy_rows(&made),
    };
    let ConversationDb { conversations, turns } = db;
    let mut conversations = conversations;
    let ghost old_conversations = conversations@;
    let ghost row = conversation@;
    conversations.push(conversation);
    proof {
        assert(ordering::views(conversations@) =~= ordering::views(old_conversations).push(row));
    }
    let after = ConversationDb { conversations, turns: turns_appended(turns, made) };
    Ok(
        (
            after,
            snapshot,
            EventHead {
                type_: "conversation.created",
                target_type: "conversation",
                target_id: id,
            },
        ),
    )
}

/// The turns of a conversation, in order.
pub open spec fn turns_of(turns: Seq<TurnRow>, conversation: Id) -> Seq<TurnRow> {
    ordering::in_order(content::owned::<Turn>(turns, conversation), conversation_model::by_ordinal())
}

/// Get a conversation with its turns.
pub fn get_conversation(db: &ConversationDb, id: Id) -> (r: Result<ConversationWithTurns, CoreError>)
    ensures
        match r {
            Ok(c) => {
                &&& tables::row_of::<Conversation>(db@.conversations, id) matches Some(i)
                    && c.conversation@ == db@.conversations[i]
                &&& ordering::views(c.turns@) == turns_of(db@.turns, id)
            },
            Err(e) => tables::row_of::<Conversation>(db@.conversations, id) is None && e@
                == CoreFault::NotFound(id),
        },
{
    match tables::find_row(&db.conversations, id) {
        Some(i) => Ok(
            ConversationWithTurns {
                conversation: db.conversations[i].copy(),
                turns: ordering::put_in_order(content::copy_owned(&db.turns, id), &()),
            },
        ),
        None => Err(CoreError::NotFound(id)),
    }
}

/// The largest ordinal among the conversation's turns, of the first `n`.
pub open spec fn max_ordinal(turns: Seq<TurnRow>, conversation: Id, n: nat) -> Option<u32>
    decreases n,
{
    if n == 0 {
        None
    } else {
        let before = max_ordinal(turns, conversation, (n - 1) as nat);
        let t = turns[n - 1];
        if t.conversation_id != conversation {
            before
        } else {
            match before {
                Some(m) => Some(
                    if t.ordinal > m {
                        t.ordinal
                    } else {
                        m
                    },
                ),
                None => Some(t.ordinal),
            }
        }
    }
}

/// The number past the largest ordinal; 0 where there is no turn.
pub open spec fn next_ordinal(turns: Seq<TurnRow>, conversation: Id) -> int {
    match max_ordinal(turns, conversation, turns.len()) {
        Some(m) => m + 1,
        None => 0,
    }
}

fn find_max_ordinal(turns: &Vec<Turn>, conversation: Id) -> (r: Option<u32>)
    ensures
        r == max_ordinal(ordering::views(turns@), conversation, turns@.len()),
{
    let ghost rows = ordering::views(turns@);
    let mut best: Option<u32> = None;
    let mut i: usize = 0;
    while i < turns.len()
        invariant
            i <= turns.len(),
            rows == ordering::views(turns@),
            best == max_ordinal(rows, conversation, i as nat),
        decreases turns.len() - i,
    {
        proof {
            assert(rows[i as int] == turns@[i as int]@);
        }
        if turns[i].conversation_id == conversation {
            let o = turns[i].ordinal;
            best = match best {
                Some(m) => Some(
                    if o > m {
                        o
                    } else {
                        m
                    },
                ),
                None => Some(o),
            };
        }
        i += 1;
    }
    best
}

/// A conversation that got `n` more turns at `now`. Without a turn it stays as
/// it is.
pub open spec fn grown(c: ConversationRow, n: nat, now: Timestamp) -> ConversationRow {
    if n == 0 {
        c
    } else {
        ConversationRow { turn_count: (c.turn_count + n) as u32, updated_at: now, ..c }
    }
}

/// Append turns to a conversation. They follow the last one, and the
/// conversation counts them. One turn that is refused refuses them all.
pub fn append_turns(
    db: ConversationDb,
    p: AppendTurns,
    turn_ids: &Vec<Id>,
    now: Timestamp,
) -> (r: Result<(ConversationDb, Vec<Turn>, EventHead), CoreError>)
    requires
        turn_ids.len() >= p.turns.len(),
        next_ordinal(db@.turns, p.conversation_id) + p.turns.len() <= u32::MAX,
        tables::row_of::<Conversation>(db@.conversations, p.conversation_id) matches Some(i)
            ==> db@.conversations[i].turn_count + p.turns.len() <= u32::MAX,
    ensures
        ({
            let id = p.conversation_id;
            let found = tables::row_of::<Conversation>(db@.conversations, id);
            let rows = new_turns(
                p.turns@,
                id,
                next_ordinal(db@.turns, id) as u32,
                turn_ids@,
                now,
            );
            match r {
                Ok((after, made, event)) => {
                    &&& found is Some
                    &&& turns_valid(p.turns@)
                    &&& ordering::views(made@) == rows
                    &&& after@.turns == db@.turns + rows
                    &&& after@.conversations == db@.conversations.update(
                        found->0,
                        grown(db@.conversations[found->0], p.turns@.len(), now),
                    )
                    &&& event@ == conversation_event("turn.appended"@, id)
                },
                Err(e) => if found is None {
                    e@ == CoreFault::NotFound(id)
                } else {
                    !turns_valid(p.turns@) && e@ == turn_attrs_fault()
                },
            }
        }),
{
    let ghost start = db@;
    let AppendTurns { conversation_id: id, turns: given } = p;
    let at = match tables::find_row(&db.conversations, id) {
        Some(i) => i,
        None => {
            return Err(CoreError::NotFound(id));
        },
    };
    let ConversationDb { conversations, turns } = db;
    let first: u32 = match find_max_ordinal(&turns, id) {
        Some(m) => m + 1,
        None => 0,
    };
    let count = given.len() as u32;
    let made = match make_turns(given, id, first, turn_ids, now) {
        Ok(made) => made,
        Err(e) => {
            return Err(e);
        },
    };
    let snapshot = tables::copy_rows(&made);
    let mut conversations = conversations;
    let ghost old_conversations = conversations@;
    proof {
        assert(start.conversations[at as int] == old_conversations[at as int]@);
    }
    let mut c = conversations[at].copy();
    if count > 0 {
        c.turn_count = c.turn_count + count;
        c.updated_at = now;
    }
    let ghost row = c@;
    conversations.set(at, c);
    proof {
        assert(ordering::views(conversations@) =~= ordering::views(old_conversations).update(
            at as int,
            row,
        ));
    }
    let after = ConversationDb { conversations, turns: turns_appended(turns, made) };
    Ok(
        (
            after,
            snapshot,
            EventHead { type_: "turn.appended", target_type: "conversation", target_id: id },
        ),
    )
}

/// The conversation is one of those asked for.
pub open spec fn listed(q: ConversationListQuery) -> spec_fn(ConversationRow) -> bool {
    |c: ConversationRow|
        {
            &&& q.tag is None || c.tags.contains(q.tag->0@)
            &&& q.transient is None || q.transient == Some(visibility::is_transient(c.attrs))
        }
}

/// List conversations, one page of them.
pub fn list_conversations(conversations: &Vec<Conversation>, q: &ConversationListQuery) -> (r:
    ConversationListResult)
    ensures
        ({
            let found = ordering::views(conversations@).filter(listed(*q));
            &&& ordering::views(r.items@) == tables::page(
                ordering::in_order(found, conversation_model::by_time(q.order)),
                q.offset as nat,
                q.limit as nat,
            )
            &&& r.total == found.len()
            &&& r.has_more == (q.offset + r.items@.len() < found.len())
        }),
{
    let ghost keep = listed(*q);
    let ghost held = ordering::views(conversations@);
    let mut out: Vec<Conversation> = Vec::new();
    let mut i: usize = 0;
    proof {
        assert(held.take(0).filter(keep) =~= Seq::empty()) by {
            reveal(Seq::filter);
        }
        assert(ordering::views(out@) =~= Seq::empty());
    }
    while i < conversations.len()
        invariant
            i <= conversations.len(),
            held == ordering::views(conversations@),
            keep == listed(*q),
            ordering::views(out@) == held.take(i as int).filter(keep),
        decreases conversations.len() - i,
    {
        proof {
            assert(held[i as int] == conversations@[i as int]@);
            signals::lemma_filter_take(held, i as int, keep);
        }
        let c = &conversations[i];
        let tagged = match &q.tag {
            Some(t) => tables::is_tagged(&c.tags, t.as_str()),
            None => true,
        };
        let lasting = match q.transient {
            Some(t) => t == visibility::transient(&c.attrs),
            None => true,
        };
        if tagged && lasting {
            let ghost before = out@;
            let row = c.copy();
            let ghost copied = row@;
            out.push(row);
            proof {
                assert(ordering::views(out@) =~= ordering::views(before).push(copied));
            }
        }
        i += 1;
    }
    proof {
        assert(held.take(i as int) =~= held);
        assert(ordering::views(out@).len() == out@.len());
    }
    let total = out.len() as u64;
    let sorted = ordering::put_in_order(out, &q.order);
    let items = tables::take_page(sorted, q.offset, q.limit);
    let has_more = (q.offset as u128 + items.len() as u128) < total as u128;
    proof {
        assert(ordering::views(items@).len() == items@.len());
    }
    ConversationListResult { items, total, has_more }
}

/// The conversation after a change.
pub open spec fn changed(c: ConversationRow, p: UpdateConversation, now: Timestamp) -> ConversationRow {
    ConversationRow {
        title: match p.title {
            Some(t) => t@,
            None => c.title,
        },
        tags: match p.tags {
            Some(t) => text::texts(t@),
            None => c.tags,
        },
        attrs: match p.attrs {
            Some(a) => a@,
            None => c.attrs,
        },
        updated_at: now,
        ..c
    }
}

/// Why a conversation cannot be changed.
pub open spec fn change_fault(db: ConversationSpec, id: Id, p: UpdateConversation) -> Option<
    CoreFault,
> {
    if tables::row_of::<Conversation>(db.conversations, id) is None {
        Some(CoreFault::NotFound(id))
    } else if p.attrs is Some && !(p.attrs->0@ is Object) {
        Some(blocks::attrs_fault())
    } else {
        None
    }
}

/// Change a conversation. What is not given stays.
pub fn update_conversation(
    db: ConversationDb,
    id: Id,
    p: UpdateConversation,
    now: Timestamp,
) -> (r: Result<(ConversationDb, Conversation, EventHead), CoreError>)
    ensures
        match r {
            Ok((after, c, event)) => {
                let i = tables::row_of::<Conversation>(db@.conversations, id)->0;
                &&& change_fault(db@, id, p) is None
                &&& c@ == changed(db@.conversations[i], p, now)
                &&& after@ == (ConversationSpec {
                    conversations: db@.conversations.update(i, c@),
                    ..db@
                })
                &&& event@ == conversation_event("conversation.updated"@, id)
            },
            Err(e) => change_fault(db@, id, p) == Some(e@),
        },
{
    let ghost start = db@;
    let ghost asked = p;
    let at = match tables::find_row(&db.conversations, id) {
        Some(i) => i,
        None => {
            return Err(CoreError::NotFound(id));
        },
    };
    let UpdateConversation { title, tags, attrs } = p;
    if let Some(a) = &attrs {
        if !a.is_object() {
            return Err(CoreError::validation("attrs must be a JSON object"));
        }
    }
    let ConversationDb { conversations, turns } = db;
    let mut conversations = conversations;
    let ghost old_conversations = conversations@;
    proof {
        assert(start.conversations[at as int] == old_conversations[at as int]@);
    }
    let mut c = conversations[at].copy();
    if let Some(t) = title {
        c.title = t;
    }
    if let Some(t) = tags {
        c.tags = t;
    }
    if let Some(a) = attrs {
        c.attrs = a;
    }
    c.updated_at = now;
    let snapshot = c.copy();
    let ghost row = c@;
    conversations.set(at, c);
    proof {
        assert(row == changed(start.conversations[at as int], asked, now));
        assert(ordering::views(conversations@) =~= ordering::views(old_conversations).update(
            at as int,
            row,
        ));
    }
    let after = ConversationDb { conversations, turns };
    Ok(
        (
            after,
            snapshot,
            EventHead {
                type_: "conversation.updated",
                target_type: "conversation",
                target_id: id,
            },
        ),
    )
}

/// All conversations but one, and no turn of it.
pub open spec fn without(db: ConversationSpec, id: Id) -> ConversationSpec {
    ConversationSpec {
        conversations: db.conversations.remove(
            tables::row_of::<Conversation>(db.conversations, id)->0,
        ),
        turns: content::unowned::<Turn>(db.turns, seq![id]),
    }
}

/// Delete a conversation and its turns. Gives the conversation as it was.
pub fn delete_conversation(db: ConversationDb, id: Id) -> (r: Result<
    (ConversationDb, Conversation, EventHead),
    CoreError,
>)
    ensures
        match r {
            Ok((after, c, event)) => {
                &&& tables::row_of::<Conversation>(db@.conversations, id) matches Some(i) && c@
                    == db@.conversations[i]
                &&& after@ == without(db@, id)
                &&& event@ == conversation_event("conversation.deleted"@, id)
            },
            Err(e) => tables::row_of::<Conversation>(db@.conversations, id) is None && e@
                == CoreFault::NotFound(id),
        },
{
    let at = match tables::find_row(&db.conversations, id) {
        Some(i) => i,
        None => {
            return Err(CoreError::NotFound(id));
        },
    };
    let ConversationDb { conversations, turns } = db;
    let mut conversations = conversations;
    let ghost old_conversations = conversations@;
    let c = conversations.remove(at);
    let mut gone: Vec<Id> = Vec::new();
    gone.push(id);
    proof {
        assert(gone@ =~= seq![id]);
        assert(ordering::views(conversations@) =~= ordering::views(old_conversations).remove(
            at as int,
        ));
    }
    let after = ConversationDb { conversations, turns: content::drop_owned(turns, &gone) };
    Ok(
        (
            after,
            c,
            EventHead {
                type_: "conversation.deleted",
                target_type: "conversation",
                target_id: id,
            },
        ),
    )
}

/// What a search result says of a turn that matched.
pub fn search_result(conversation: Conversation, turn: Turn, query: &str, score: F32Bits) -> (r:
    ConversationSearchResult)
    ensures
        r.conversation == conversation,
        r.turn == turn,
        r.snippet@ == snippet::snippet_of(turn.content@, query@),
        r.score == score,
{
    let snippet = snippet::extract_snippet(turn.content.as_str(), query);
    ConversationSearchResult { conversation, turn, snippet, score }
}

} // verus!
