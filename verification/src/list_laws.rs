//! What holds of lists of conversations, events and links.
use vstd::prelude::*;
use vstd::string::*;

use crate::attrs;
use crate::content::{self, ContentSpec};
use crate::conversation_model::{
    self, ConversationListOrder, ConversationListQuery, ConversationRow, CreateConversation,
    CreateTurn, Turn, TurnRow, UpdateConversation,
};
use crate::conversations;
use crate::error::CoreFault;
use crate::event_model::{self, EventRow, ListEventsQuery, PurgeQuery};
use crate::events;
use crate::ids::Id;
use crate::link_model::{self, CreateLink, LinkRow, ListLinkQuery, NeighborsQuery};
use crate::links;
use crate::listing_laws::{self, no_later};
use crate::model::{EntryRow, EntryRowSpec};
use crate::ordering::{self, Order};
use crate::signals;
use crate::tables;
use crate::text;
use crate::time::Timestamp;
use crate::visibility;

verus! {

/// What a list shows of rows: those that are wanted, `before` deciding which
/// come first.
proof fn lemma_list<A>(
    rows: Seq<A>,
    wanted: spec_fn(A) -> bool,
    before: Order<A>,
    offset: nat,
    limit: nat,
)
    requires
        ordering::is_order(before),
    ensures
        ({
            let out = tables::page(
                ordering::in_order(rows.filter(wanted), before),
                offset,
                limit,
            );
            &&& out.len() <= limit
            &&& ordering::is_ordered(out, before)
            &&& forall|i: int|
                0 <= i < out.len() ==> rows.contains(#[trigger] out[i]) && wanted(out[i])
            &&& offset == 0 ==> forall|row: A| #[trigger]
                rows.contains(row) && wanted(row) ==> out.contains(row) || (out.len() == limit
                    && forall|i: int| 0 <= i < out.len() ==> !before(row, #[trigger] out[i]))
        }),
{
    let found = rows.filter(wanted);
    let all = ordering::in_order(found, before);
    let out = tables::page(all, offset, limit);
    signals::lemma_filter_rows(rows, wanted);
    ordering::law_in_order(found, before);
    ordering::lemma_in_order_members(found, before);
    listing_laws::lemma_ordered_page(found, before, offset, limit);
    assert forall|i: int| 0 <= i < out.len() implies rows.contains(#[trigger] out[i]) && wanted(
        out[i],
    ) by {
        assert(found.contains(out[i]));
    }
    if offset == 0 {
        assert forall|row: A| #[trigger] rows.contains(row) && wanted(row) implies out.contains(row)
            || (out.len() == limit && forall|i: int|
            0 <= i < out.len() ==> !before(row, #[trigger] out[i])) by {
            assert(found.contains(row));
            assert(all.contains(row));
            let x = choose|x: int| 0 <= x < all.len() && all[x] == row;
            if x < out.len() {
                assert(out[x] == row);
            } else {
                assert forall|i: int| 0 <= i < out.len() implies !before(
                    row,
                    #[trigger] out[i],
                ) by {
                    assert(out[i] == all[i]);
                    assert(!before(all[x], all[i]));
                }
            }
        }
    }
}

/// `a` does not belong behind `b` in a list of conversations.
pub open spec fn in_time(a: ConversationRow, b: ConversationRow, order: ConversationListOrder) -> bool {
    match order {
        ConversationListOrder::CreatedDesc => no_later(b.created_at, a.created_at),
        ConversationListOrder::CreatedAsc => no_later(a.created_at, b.created_at),
        ConversationListOrder::UpdatedDesc => no_later(b.updated_at, a.updated_at),
        ConversationListOrder::UpdatedAsc => no_later(a.updated_at, b.updated_at),
    }
}

/// The conversation is one that a query asks for: it has the tag where one is
/// named, and is short-lived, or is not, where that is asked.
pub open spec fn is_asked_for(c: ConversationRow, q: ConversationListQuery) -> bool {
    &&& q.tag is Some ==> c.tags.contains(q.tag->0@)
    &&& q.transient == Some(true) ==> visibility::is_transient(c.attrs)
    &&& q.transient == Some(false) ==> !visibility::is_transient(c.attrs)
}

/// A list of conversations runs by the time that was asked for, holds only
/// those that were asked for, and lacks one of them only where it is full of
/// such that come first.
pub proof fn law_list_of_conversations(rows: Seq<ConversationRow>, q: ConversationListQuery)
    ensures
        ({
            let found = rows.filter(conversations::listed(q));
            let out = tables::page(
                ordering::in_order(found, conversation_model::by_time(q.order)),
                q.offset as nat,
                q.limit as nat,
            );
            &&& out.len() <= q.limit
            &&& found == rows.filter(|c: ConversationRow| is_asked_for(c, q))
            &&& forall|i: int, j: int|
                #![trigger out[i], out[j]]
                0 <= i < j < out.len() ==> in_time(out[i], out[j], q.order)
            &&& forall|i: int|
                0 <= i < out.len() ==> rows.contains(#[trigger] out[i]) && is_asked_for(out[i], q)
            &&& q.offset == 0 ==> forall|c: ConversationRow| #[trigger]
                rows.contains(c) && is_asked_for(c, q) ==> out.contains(c) || (out.len() == q.limit
                    && forall|i: int| 0 <= i < out.len() ==> in_time(#[trigger] out[i], c, q.order))
        }),
{
    let wanted = |c: ConversationRow| is_asked_for(c, q);
    let before = conversation_model::by_time(q.order);
    assert forall|c: ConversationRow| #[trigger] conversations::listed(q)(c) == wanted(c) by {
        if let Some(t) = q.transient {
            assert(q.transient == Some(t));
        }
    }
    assert(conversations::listed(q) =~= wanted);
    lemma_list(rows, wanted, before, q.offset as nat, q.limit as nat);
    let out = tables::page(
        ordering::in_order(rows.filter(wanted), before),
        q.offset as nat,
        q.limit as nat,
    );
    assert forall|i: int, j: int|
        #![trigger out[i], out[j]]
        0 <= i < j < out.len() implies in_time(out[i], out[j], q.order) by {
        assert(!before(out[j], out[i]));
    }
    if q.offset == 0 {
        assert forall|c: ConversationRow| #[trigger]
            rows.contains(c) && is_asked_for(c, q) implies out.contains(c) || (out.len() == q.limit
            && forall|i: int| 0 <= i < out.len() ==> in_time(#[trigger] out[i], c, q.order)) by {
            assert(wanted(c));
            if !out.contains(c) {
                assert forall|i: int| 0 <= i < out.len() implies in_time(
                    #[trigger] out[i],
                    c,
                    q.order,
                ) by {
                    assert(!before(c, out[i]));
                }
            }
        }
    }
}

/// The turns that are read of a conversation are its own, by their ordinals.
pub proof fn law_turns_of_a_conversation(turns: Seq<TurnRow>, conversation: Id)
    ensures
        ({
            let out = conversations::turns_of(turns, conversation);
            &&& out.to_multiset() == turns.filter(
                |t: TurnRow| t.conversation_id == conversation,
            ).to_multiset()
            &&& forall|i: int, j: int|
                #![trigger out[i], out[j]]
                0 <= i < j < out.len() ==> out[i].ordinal <= out[j].ordinal
        }),
{
    let own = content::owned::<Turn>(turns, conversation);
    assert(content::belongs::<Turn>(conversation) =~= (|t: TurnRow| t.conversation_id
        == conversation));
    let before = conversation_model::by_ordinal();
    ordering::law_in_order(own, before);
    let out = conversations::turns_of(turns, conversation);
    assert forall|i: int, j: int|
        #![trigger out[i], out[j]]
        0 <= i < j < out.len() implies out[i].ordinal <= out[j].ordinal by {
        assert(!before(out[j], out[i]));
    }
}

/// A new conversation is what was given, with an empty title, no tags and no
/// attributes where none were; it counts its turns, and its turns are those
/// given, one after another from `first` on.
pub proof fn law_new_conversation_is_what_was_given(
    p: CreateConversation,
    id: Id,
    turn_ids: Seq<Id>,
    first: u32,
    now: Timestamp,
    i: int,
)
    requires
        conversations::first_turns(p).len() <= u32::MAX,
    ensures
        ({
            let c = conversations::new_conversation(p, id, now);
            &&& c.id == id
            &&& p.title is Some ==> c.title == p.title->0@
            &&& p.title is None ==> c.title.len() == 0
            &&& p.tags is Some ==> c.tags == text::texts(p.tags->0@)
            &&& p.tags is None ==> c.tags.len() == 0
            &&& p.attrs is Some ==> c.attrs == p.attrs->0@
            &&& p.attrs is None ==> c.attrs is Object && c.attrs->Object_0.len() == 0
            &&& p.turns is Some ==> c.turn_count == p.turns->0@.len()
            &&& p.turns is None ==> c.turn_count == 0
            &&& c.created_at == now
            &&& c.updated_at == now
        }),
        p.turns is Some && 0 <= i < p.turns->0@.len() && first + i <= u32::MAX ==> {
            let given = p.turns->0@[i];
            let turns = conversations::new_turns(
                conversations::first_turns(p),
                id,
                first,
                turn_ids,
                now,
            );
            is_turn(turns[i], given, id, first + i, turn_ids[i], now) && turns.len()
                == p.turns->0@.len()
        },
{
}

/// The turn is what was given.
pub open spec fn is_turn(
    turn: TurnRow,
    given: CreateTurn,
    conversation: Id,
    ordinal: int,
    id: Id,
    now: Timestamp,
) -> bool {
    &&& turn.id == id
    &&& turn.conversation_id == conversation
    &&& turn.ordinal == ordinal
    &&& turn.role == given.role@
    &&& turn.content == given.content@
    &&& given.attrs is Some ==> turn.attrs == given.attrs->0@
    &&& given.attrs is None ==> turn.attrs is Object && turn.attrs->Object_0.len() == 0
    &&& turn.created_at == now
}

proof fn lemma_max_ordinal(turns: Seq<TurnRow>, id: Id, n: nat)
    requires
        n <= turns.len(),
    ensures
        match conversations::max_ordinal(turns, id, n) {
            Some(m) => (forall|i: int|
                0 <= i < n && (#[trigger] turns[i]).conversation_id == id ==> turns[i].ordinal <= m)
                && exists|i: int|
                0 <= i < n && (#[trigger] turns[i]).conversation_id == id && turns[i].ordinal == m,
            None => forall|i: int| 0 <= i < n ==> (#[trigger] turns[i]).conversation_id != id,
        },
    decreases n,
{
    if n > 0 {
        lemma_max_ordinal(turns, id, (n - 1) as nat);
        if let Some(m) = conversations::max_ordinal(turns, id, (n - 1) as nat) {
            let i = choose|i: int|
                0 <= i < n - 1 && (#[trigger] turns[i]).conversation_id == id && turns[i].ordinal
                    == m;
            assert(turns[i].ordinal == m);
        }
        if turns[n - 1].conversation_id == id {
            assert(turns[n - 1].conversation_id == id);
        }
    }
}

/// The next turn of a conversation follows its last one directly; the first of
/// all gets 0.
pub proof fn law_next_turn_follows_the_last(turns: Seq<TurnRow>, id: Id)
    ensures
        ({
            let next = conversations::next_ordinal(turns, id);
            &&& forall|i: int|
                0 <= i < turns.len() && (#[trigger] turns[i]).conversation_id == id
                    ==> turns[i].ordinal < next
            &&& next == 0 || exists|i: int|
                0 <= i < turns.len() && (#[trigger] turns[i]).conversation_id == id
                    && turns[i].ordinal == next - 1
        }),
{
    lemma_max_ordinal(turns, id, turns.len());
}

/// A conversation that grows counts its new turns and was updated then; nothing
/// else of it changes, and nothing at all without a turn.
pub proof fn law_growing_only_counts(c: ConversationRow, n: nat, now: Timestamp)
    requires
        c.turn_count + n <= u32::MAX,
    ensures
        ({
            let after = conversations::grown(c, n, now);
            &&& after.turn_count == c.turn_count + n
            &&& n > 0 ==> after.updated_at == now
            &&& n == 0 ==> after == c
            &&& after.id == c.id
            &&& after.title == c.title
            &&& after.tags == c.tags
            &&& after.attrs == c.attrs
            &&& after.created_at == c.created_at
        }),
{
}

/// A change sets what was given and leaves the rest.
pub proof fn law_change_sets_what_was_given(
    c: ConversationRow,
    p: UpdateConversation,
    now: Timestamp,
)
    ensures
        ({
            let after = conversations::changed(c, p, now);
            &&& after.title == if p.title is Some {
                p.title->0@
            } else {
                c.title
            }
            &&& after.tags == if p.tags is Some {
                text::texts(p.tags->0@)
            } else {
                c.tags
            }
            &&& after.attrs == if p.attrs is Some {
                p.attrs->0@
            } else {
                c.attrs
            }
            &&& after.updated_at == now
            &&& after.id == c.id
            &&& after.turn_count == c.turn_count
            &&& after.created_at == c.created_at
        }),
{
}

/// Attributes must be an object wherever they are given, of a conversation and
/// of each of its turns; nothing else refuses a new conversation.
pub proof fn law_only_attributes_refuse_a_conversation(p: CreateConversation)
    ensures
        conversations::create_fault(p) is None <==> (p.attrs is Some ==> p.attrs->0@ is Object) && (
        p.turns is Some ==> forall|i: int|
            0 <= i < p.turns->0@.len() && (#[trigger] p.turns->0@[i]).attrs is Some
                ==> p.turns->0@[i].attrs->0@ is Object),
{
    if conversations::create_fault(p) is None && p.turns is Some {
        assert forall|i: int|
            0 <= i < p.turns->0@.len() && (#[trigger] p.turns->0@[i]).attrs is Some implies
            p.turns->0@[i].attrs->0@ is Object by {
            assert(conversations::first_turns(p)[i] == p.turns->0@[i]);
            assert(attrs::given(conversations::first_turns(p)[i].attrs) is Object);
        }
    }
    if (p.attrs is Some ==> p.attrs->0@ is Object) && (p.turns is Some ==> forall|i: int|
        0 <= i < p.turns->0@.len() && (#[trigger] p.turns->0@[i]).attrs is Some
            ==> p.turns->0@[i].attrs->0@ is Object) {
        let turns = conversations::first_turns(p);
        assert forall|i: int| 0 <= i < turns.len() implies attrs::given((#[trigger] turns[i]).attrs) is Object by {
            assert(turns[i] == p.turns->0@[i]);
        }
    }
}

/// The event is one that a query asks for: after the one named, of the type,
/// about the target.
pub open spec fn is_event_asked_for(e: EventRow, q: ListEventsQuery) -> bool {
    &&& q.since is Some ==> e.id > q.since->0
    &&& q.type_ is Some ==> e.type_ == q.type_->0@
    &&& q.target_type is Some ==> e.target_type == q.target_type->0@
    &&& q.target_id is Some ==> e.target_id == q.target_id->0
}

/// A list of events runs by identifier, up or down as was asked, holds only
/// those that were asked for, and lacks one of them only where it is full of
/// such that come first.
pub proof fn law_list_of_events(rows: Seq<EventRow>, q: ListEventsQuery)
    ensures
        ({
            let out = tables::page(events::found(rows, q), 0, q.limit as nat);
            &&& events::found(rows, q).len() == rows.filter(
                |e: EventRow| is_event_asked_for(e, q),
            ).len()
            &&& out.len() <= q.limit
            &&& forall|i: int, j: int|
                #![trigger out[i], out[j]]
                0 <= i < j < out.len() ==> if q.order is Asc {
                    out[i].id <= out[j].id
                } else {
                    out[j].id <= out[i].id
                }
            &&& forall|i: int|
                0 <= i < out.len() ==> rows.contains(#[trigger] out[i]) && is_event_asked_for(
                    out[i],
                    q,
                )
            &&& forall|e: EventRow| #[trigger]
                rows.contains(e) && is_event_asked_for(e, q) ==> out.contains(e) || (out.len()
                    == q.limit && forall|i: int|
                    0 <= i < out.len() ==> if q.order is Asc {
                        (#[trigger] out[i]).id <= e.id
                    } else {
                        e.id <= out[i].id
                    })
        }),
{
    let wanted = |e: EventRow| is_event_asked_for(e, q);
    let before = event_model::by_id(q.order);
    assert(events::listed(q) =~= wanted);
    lemma_list(rows, wanted, before, 0, q.limit as nat);
    ordering::law_in_order(rows.filter(wanted), before);
    let out = tables::page(events::found(rows, q), 0, q.limit as nat);
    assert forall|i: int, j: int|
        #![trigger out[i], out[j]]
        0 <= i < j < out.len() implies if q.order is Asc {
        out[i].id <= out[j].id
    } else {
        out[j].id <= out[i].id
    } by {
        assert(!before(out[j], out[i]));
    }
    assert forall|e: EventRow| #[trigger]
        rows.contains(e) && is_event_asked_for(e, q) implies out.contains(e) || (out.len()
        == q.limit && forall|i: int|
        0 <= i < out.len() ==> if q.order is Asc {
            (#[trigger] out[i]).id <= e.id
        } else {
            e.id <= out[i].id
        }) by {
        assert(wanted(e));
        if !out.contains(e) {
            assert forall|i: int| 0 <= i < out.len() implies if q.order is Asc {
                (#[trigger] out[i]).id <= e.id
            } else {
                e.id <= out[i].id
            } by {
                assert(!before(e, out[i]));
            }
        }
    }
}

/// A purge takes the events before the one named, of the type where one is
/// named, and leaves all others in their order.
pub proof fn law_purge_takes_earlier_events(rows: Seq<EventRow>, q: PurgeQuery)
    ensures
        rows.filter(events::spared(q)) == rows.filter(
            |e: EventRow| e.id >= q.before || (q.type_ is Some && e.type_ != q.type_->0@),
        ),
{
    assert(events::spared(q) =~= (|e: EventRow|
        e.id >= q.before || (q.type_ is Some && e.type_ != q.type_->0@)));
}

/// `a` is older than `b`, or as old and not the larger in identifier.
pub open spec fn link_in_time(a: LinkRow, b: LinkRow) -> bool {
    no_later(a.created_at, b.created_at) && (a.created_at == b.created_at ==> a.id <= b.id)
}

/// The link is one that a query asks for.
pub open spec fn is_link_asked_for(l: LinkRow, q: ListLinkQuery) -> bool {
    &&& q.from is Some ==> l.source_id == q.from->0
    &&& q.to is Some ==> l.target_id == q.to->0
    &&& q.relation is Some ==> l.relation == q.relation->0@
}

/// A list of links runs from the oldest on, holds only those that were asked
/// for, and lacks one of them only where it is full of older ones.
pub proof fn law_list_of_links(rows: Seq<LinkRow>, q: ListLinkQuery)
    ensures
        ({
            let found = rows.filter(links::listed(q));
            let out = tables::page(
                ordering::in_order(found, link_model::by_creation()),
                q.offset as nat,
                q.limit as nat,
            );
            &&& out.len() <= q.limit
            &&& found == rows.filter(|l: LinkRow| is_link_asked_for(l, q))
            &&& forall|i: int, j: int|
                #![trigger out[i], out[j]]
                0 <= i < j < out.len() ==> link_in_time(out[i], out[j])
            &&& forall|i: int|
                0 <= i < out.len() ==> rows.contains(#[trigger] out[i]) && is_link_asked_for(
                    out[i],
                    q,
                )
            &&& q.offset == 0 ==> forall|l: LinkRow| #[trigger]
                rows.contains(l) && is_link_asked_for(l, q) ==> out.contains(l) || (out.len()
                    == q.limit && forall|i: int|
                    0 <= i < out.len() ==> link_in_time(#[trigger] out[i], l))
        }),
{
    let wanted = |l: LinkRow| is_link_asked_for(l, q);
    let before = link_model::by_creation();
    assert(links::listed(q) =~= wanted);
    lemma_list(rows, wanted, before, q.offset as nat, q.limit as nat);
    let out = tables::page(
        ordering::in_order(rows.filter(wanted), before),
        q.offset as nat,
        q.limit as nat,
    );
    assert forall|i: int, j: int|
        #![trigger out[i], out[j]]
        0 <= i < j < out.len() implies link_in_time(out[i], out[j]) by {
        assert(!before(out[j], out[i]));
    }
    if q.offset == 0 {
        assert forall|l: LinkRow| #[trigger]
            rows.contains(l) && is_link_asked_for(l, q) implies out.contains(l) || (out.len()
            == q.limit && forall|i: int|
            0 <= i < out.len() ==> link_in_time(#[trigger] out[i], l)) by {
            assert(wanted(l));
            if !out.contains(l) {
                assert forall|i: int| 0 <= i < out.len() implies link_in_time(
                    #[trigger] out[i],
                    l,
                ) by {
                    assert(!before(l, out[i]));
                }
            }
        }
    }
}

/// The entry that a link joins to `id`.
pub open spec fn far_end(l: LinkRow, id: Id) -> Id {
    if l.source_id == id {
        l.target_id
    } else {
        l.source_id
    }
}

/// The link touches the entry in the direction that is asked for, has the
/// relation where one is named, and its far end exists.
pub open spec fn is_followed(db: ContentSpec, q: NeighborsQuery, l: LinkRow) -> bool {
    &&& q.direction is Out ==> l.source_id == q.id
    &&& q.direction is In ==> l.target_id == q.id
    &&& l.source_id == q.id || l.target_id == q.id
    &&& q.relation is Some ==> l.relation == q.relation->0@
    &&& exists|i: int|
        0 <= i < db.entries.len() && (#[trigger] db.entries[i]).id == far_end(l, q.id)
}

proof fn lemma_is_followed(db: ContentSpec, q: NeighborsQuery, l: LinkRow)
    ensures
        links::leads(db, q)(l) <==> is_followed(db, q, l),
{
    tables::lemma_row_at::<EntryRow>(db.entries, far_end(l, q.id), db.entries.len());
    if let Some(i) = tables::row_of::<EntryRow>(db.entries, far_end(l, q.id)) {
        assert(db.entries[i].id == far_end(l, q.id));
    }
}

/// From an entry the oldest links are followed, in the direction and by the
/// relation that are asked for, and one is left out only where there are as
/// many as the limit.
pub proof fn law_followed_links(db: ContentSpec, q: NeighborsQuery)
    ensures
        ({
            let out = links::followed(db, q);
            &&& out.len() <= q.limit
            &&& forall|i: int, j: int|
                #![trigger out[i], out[j]]
                0 <= i < j < out.len() ==> link_in_time(out[i], out[j])
            &&& forall|i: int|
                0 <= i < out.len() ==> db.links.contains(#[trigger] out[i]) && is_followed(
                    db,
                    q,
                    out[i],
                )
            &&& forall|l: LinkRow| #[trigger]
                db.links.contains(l) && is_followed(db, q, l) ==> out.contains(l) || (out.len()
                    == q.limit && forall|i: int|
                    0 <= i < out.len() ==> link_in_time(#[trigger] out[i], l))
        }),
{
    let wanted = links::leads(db, q);
    let before = link_model::by_creation();
    lemma_list(db.links, wanted, before, 0, q.limit as nat);
    let out = links::followed(db, q);
    assert forall|i: int, j: int|
        #![trigger out[i], out[j]]
        0 <= i < j < out.len() implies link_in_time(out[i], out[j]) by {
        assert(!before(out[j], out[i]));
    }
    assert forall|i: int| 0 <= i < out.len() implies db.links.contains(#[trigger] out[i])
        && is_followed(db, q, out[i]) by {
        lemma_is_followed(db, q, out[i]);
    }
    assert forall|l: LinkRow| #[trigger]
        db.links.contains(l) && is_followed(db, q, l) implies out.contains(l) || (out.len()
        == q.limit && forall|i: int| 0 <= i < out.len() ==> link_in_time(#[trigger] out[i], l)) by {
        lemma_is_followed(db, q, l);
        if !out.contains(l) {
            assert forall|i: int| 0 <= i < out.len() implies link_in_time(#[trigger] out[i], l) by {
                assert(!before(l, out[i]));
            }
        }
    }
}

/// The far ends of links are entries.
spec fn ends_exist(entries: Seq<EntryRowSpec>, rows: Seq<LinkRow>, id: Id) -> bool {
    forall|i: int|
        #![trigger rows[i]]
        0 <= i < rows.len() ==> exists|k: int|
            0 <= k < entries.len() && (#[trigger] entries[k]).id == far_end(rows[i], id)
}

proof fn lemma_end_shown(
    entries: Seq<EntryRowSpec>,
    rows: Seq<LinkRow>,
    id: Id,
    n: nat,
    k: int,
) -> (r: (int, int))
    requires
        n <= rows.len(),
        ends_exist(entries, rows, id),
        0 <= k < links::other_ends(entries, rows, id, n).len(),
    ensures
        0 <= r.0 < n,
        0 <= r.1 < entries.len(),
        links::other_ends(entries, rows, id, n)[k].id == far_end(rows[r.0], id),
        listing_laws::shows_entry(
            links::other_ends(entries, rows, id, n)[k],
            entries[r.1],
            Seq::empty(),
            false,
        ),
    decreases n,
{
    if n == 0 {
        (0, 0)
    } else {
        let before = links::other_ends(entries, rows, id, (n - 1) as nat);
        let out = links::other_ends(entries, rows, id, n);
        if k < before.len() {
            assert(out[k] == before[k]);
            lemma_end_shown(entries, rows, id, (n - 1) as nat, k)
        } else {
            let other = far_end(rows[n - 1], id);
            let e = choose|k: int| 0 <= k < entries.len() && (#[trigger] entries[k]).id == other;
            assert(entries[e].id == other);
            tables::lemma_row_at::<EntryRow>(entries, other, entries.len());
            (n - 1, tables::row_of::<EntryRow>(entries, other)->0)
        }
    }
}

proof fn lemma_end_reached(
    entries: Seq<EntryRowSpec>,
    rows: Seq<LinkRow>,
    id: Id,
    n: nat,
    i: int,
) -> (k: int)
    requires
        0 <= i < n <= rows.len(),
        ends_exist(entries, rows, id),
    ensures
        0 <= k < links::other_ends(entries, rows, id, n).len(),
        links::other_ends(entries, rows, id, n)[k].id == far_end(rows[i], id),
    decreases n,
{
    let before = links::other_ends(entries, rows, id, (n - 1) as nat);
    let out = links::other_ends(entries, rows, id, n);
    if i < n - 1 {
        let k = lemma_end_reached(entries, rows, id, (n - 1) as nat, i);
        assert(out[k] == before[k]);
        k
    } else {
        let other = far_end(rows[i], id);
        if links::is_among(before, other) {
            choose|k: int| 0 <= k < before.len() && (#[trigger] before[k]).id == other
        } else {
            let e = choose|k: int| 0 <= k < entries.len() && (#[trigger] entries[k]).id == other;
            assert(entries[e].id == other);
            tables::lemma_row_at::<EntryRow>(entries, other, entries.len());
            before.len() as int
        }
    }
}

proof fn lemma_ends_differ(entries: Seq<EntryRowSpec>, rows: Seq<LinkRow>, id: Id, n: nat)
    requires
        n <= rows.len(),
        ends_exist(entries, rows, id),
    ensures
        ({
            let out = links::other_ends(entries, rows, id, n);
            forall|j: int, k: int|
                0 <= j < k < out.len() ==> (#[trigger] out[j]).id != (#[trigger] out[k]).id
        }),
    decreases n,
{
    if n > 0 {
        lemma_ends_differ(entries, rows, id, (n - 1) as nat);
        let before = links::other_ends(entries, rows, id, (n - 1) as nat);
        let other = far_end(rows[n - 1], id);
        let e = choose|k: int| 0 <= k < entries.len() && (#[trigger] entries[k]).id == other;
        assert(entries[e].id == other);
        tables::lemma_row_at::<EntryRow>(entries, other, entries.len());
    }
}

/// The neighbours of an entry are the far ends of the links that are followed,
/// each once and as the index holds it, without blocks.
pub proof fn law_neighbours_are_the_far_ends(db: ContentSpec, q: NeighborsQuery)
    ensures
        ({
            let rows = links::followed(db, q);
            let out = links::other_ends(db.entries, rows, q.id, rows.len());
            &&& forall|k: int|
                0 <= k < out.len() ==> exists|m: int|
                    0 <= m < db.entries.len() && listing_laws::shows_entry(
                        #[trigger] out[k],
                        #[trigger] db.entries[m],
                        Seq::empty(),
                        false,
                    )
            &&& forall|k: int|
                0 <= k < out.len() ==> exists|i: int|
                    0 <= i < rows.len() && (#[trigger] out[k]).id == far_end(
                        #[trigger] rows[i],
                        q.id,
                    )
            &&& forall|i: int|
                0 <= i < rows.len() ==> exists|k: int|
                    0 <= k < out.len() && (#[trigger] out[k]).id == far_end(
                        #[trigger] rows[i],
                        q.id,
                    )
            &&& forall|j: int, k: int|
                0 <= j < k < out.len() ==> (#[trigger] out[j]).id != (#[trigger] out[k]).id
        }),
{
    law_followed_links(db, q);
    let rows = links::followed(db, q);
    assert forall|i: int|
        #![trigger rows[i]]
        0 <= i < rows.len() implies exists|k: int|
        0 <= k < db.entries.len() && (#[trigger] db.entries[k]).id == far_end(rows[i], q.id) by {
        assert(is_followed(db, q, rows[i]));
    }
    lemma_ends_differ(db.entries, rows, q.id, rows.len());
    let out = links::other_ends(db.entries, rows, q.id, rows.len());
    assert forall|k: int| 0 <= k < out.len() implies exists|m: int|
        0 <= m < db.entries.len() && listing_laws::shows_entry(
            #[trigger] out[k],
            #[trigger] db.entries[m],
            Seq::empty(),
            false,
        ) by {
        let (i, m) = lemma_end_shown(db.entries, rows, q.id, rows.len(), k);
        assert(listing_laws::shows_entry(out[k], db.entries[m], Seq::empty(), false));
    }
    assert forall|k: int| 0 <= k < out.len() implies exists|i: int|
        0 <= i < rows.len() && (#[trigger] out[k]).id == far_end(#[trigger] rows[i], q.id) by {
        let (i, m) = lemma_end_shown(db.entries, rows, q.id, rows.len(), k);
        assert(out[k].id == far_end(rows[i], q.id));
    }
    assert forall|i: int| 0 <= i < rows.len() implies exists|k: int|
        0 <= k < out.len() && (#[trigger] out[k]).id == far_end(#[trigger] rows[i], q.id) by {
        let k = lemma_end_reached(db.entries, rows, q.id, rows.len(), i);
        assert(out[k].id == far_end(rows[i], q.id));
    }
}

/// A new link is what was given. It is refused where its attributes are no
/// object, an end does not exist, or a link of that relation joins the ends
/// already; and only then.
pub proof fn law_new_link_is_what_was_given(db: ContentSpec, p: CreateLink, id: Id, now: Timestamp)
    ensures
        ({
            let l = links::new_link(p, id, now);
            &&& l.id == id
            &&& l.source_id == p.source_id
            &&& l.target_id == p.target_id
            &&& l.relation == p.relation@
            &&& p.attrs is Some ==> l.attrs == p.attrs->0@
            &&& p.attrs is None ==> l.attrs is Object && l.attrs->Object_0.len() == 0
            &&& l.created_at == now
        }),
        links::create_fault(db, p, id, now) is None <==> {
            &&& p.attrs is Some ==> p.attrs->0@ is Object
            &&& exists|i: int|
                0 <= i < db.entries.len() && (#[trigger] db.entries[i]).id == p.source_id
            &&& exists|i: int|
                0 <= i < db.entries.len() && (#[trigger] db.entries[i]).id == p.target_id
            &&& forall|i: int|
                #![trigger db.links[i]]
                0 <= i < db.links.len() ==> db.links[i].source_id != p.source_id
                    || db.links[i].target_id != p.target_id || db.links[i].relation != p.relation@
        },
{
    tables::lemma_row_at::<EntryRow>(db.entries, p.source_id, db.entries.len());
    tables::lemma_row_at::<EntryRow>(db.entries, p.target_id, db.entries.len());
    if let Some(i) = tables::row_of::<EntryRow>(db.entries, p.source_id) {
        assert(db.entries[i].id == p.source_id);
    }
    if let Some(i) = tables::row_of::<EntryRow>(db.entries, p.target_id) {
        assert(db.entries[i].id == p.target_id);
    }
    let l = links::new_link(p, id, now);
    assert(links::edge_taken(db.links, l) <==> !(forall|i: int|
        #![trigger db.links[i]]
        0 <= i < db.links.len() ==> db.links[i].source_id != p.source_id || db.links[i].target_id
            != p.target_id || db.links[i].relation != p.relation@));
}

/// A refused conversation or link says why.
pub proof fn law_refusals_say_why(
    p: CreateConversation,
    i: int,
    db: ContentSpec,
    l: CreateLink,
    id: Id,
    now: Timestamp,
)
    ensures
        p.attrs is Some && !(p.attrs->0@ is Object) ==> conversations::create_fault(p) == Some(
            CoreFault::Validation("attrs must be a JSON object"@),
        ),
        (p.attrs is Some ==> p.attrs->0@ is Object) && p.turns is Some && 0 <= i
            < p.turns->0@.len() && p.turns->0@[i].attrs is Some && !(
        p.turns->0@[i].attrs->0@ is Object) ==> conversations::create_fault(p) == Some(
            CoreFault::Validation("turn attrs must be a JSON object"@),
        ),
        l.attrs is Some && !(l.attrs->0@ is Object) ==> links::create_fault(db, l, id, now) == Some(
            CoreFault::Validation("attrs must be a JSON object"@),
        ),
        (l.attrs is Some ==> l.attrs->0@ is Object) && (forall|j: int|
            0 <= j < db.entries.len() ==> (#[trigger] db.entries[j]).id != l.source_id) || (
        l.attrs is Some ==> l.attrs->0@ is Object) && (forall|j: int|
            0 <= j < db.entries.len() ==> (#[trigger] db.entries[j]).id != l.target_id)
            ==> links::create_fault(db, l, id, now) == Some(
            CoreFault::Validation("link constraint violation: FOREIGN KEY constraint failed"@),
        ),
{
    if p.turns is Some && 0 <= i < p.turns->0@.len() && p.turns->0@[i].attrs is Some && !(
    p.turns->0@[i].attrs->0@ is Object) {
        assert(conversations::first_turns(p)[i] == p.turns->0@[i]);
        assert(!(attrs::given(conversations::first_turns(p)[i].attrs) is Object));
        assert(!conversations::turns_valid(conversations::first_turns(p)));
    }
    tables::lemma_row_at::<EntryRow>(db.entries, l.source_id, db.entries.len());
    tables::lemma_row_at::<EntryRow>(db.entries, l.target_id, db.entries.len());
    if let Some(x) = tables::row_of::<EntryRow>(db.entries, l.source_id) {
        assert(db.entries[x].id == l.source_id);
    }
    if let Some(x) = tables::row_of::<EntryRow>(db.entries, l.target_id) {
        assert(db.entries[x].id == l.target_id);
    }
}

} // verus!
