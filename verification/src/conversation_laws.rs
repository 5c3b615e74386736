//! What holds of conversations as a whole.
use vstd::prelude::*;

use crate::content::{self, Owned};
use crate::content_laws;
use crate::conversation_model::{
    self, AppendTurns, Conversation, CreateConversation, CreateTurn, Turn, TurnRow,
    UpdateConversation,
};
use crate::conversations::{self, ConversationSpec};
use crate::ids::Id;
use crate::ordering;
use crate::signals;
use crate::tables::{self, HasId};
use crate::time::Timestamp;

verus! {

/// Identifiers are unique, every turn belongs to a conversation, no two turns
/// of a conversation have one ordinal, and each conversation counts its turns.
pub open spec fn well_formed(db: ConversationSpec) -> bool {
    &&& tables::distinct::<Conversation>(db.conversations)
    &&& tables::distinct::<Turn>(db.turns)
    &&& forall|i: int|
        0 <= i < db.turns.len() ==> tables::row_of::<Conversation>(
            db.conversations,
            (#[trigger] db.turns[i]).conversation_id,
        ) is Some
    &&& forall|i: int, j: int|
        0 <= i < j < db.turns.len() ==> (#[trigger] db.turns[i]).conversation_id != (
        #[trigger] db.turns[j]).conversation_id || db.turns[i].ordinal != db.turns[j].ordinal
    &&& forall|i: int|
        0 <= i < db.conversations.len() ==> (#[trigger] db.conversations[i]).turn_count
            == content::owned::<Turn>(db.turns, db.conversations[i].id).len()
}

/// The index with a new conversation.
pub open spec fn with_created(
    db: ConversationSpec,
    p: CreateConversation,
    id: Id,
    turn_ids: Seq<Id>,
    now: Timestamp,
) -> ConversationSpec {
    ConversationSpec {
        conversations: db.conversations.push(conversations::new_conversation(p, id, now)),
        turns: db.turns + conversations::new_turns(
            conversations::first_turns(p),
            id,
            0,
            turn_ids,
            now,
        ),
    }
}

/// The turns that an append makes.
pub open spec fn appended(
    db: ConversationSpec,
    p: AppendTurns,
    turn_ids: Seq<Id>,
    now: Timestamp,
) -> Seq<TurnRow> {
    conversations::new_turns(
        p.turns@,
        p.conversation_id,
        conversations::next_ordinal(db.turns, p.conversation_id) as u32,
        turn_ids,
        now,
    )
}

/// The index with more turns.
pub open spec fn with_appended(
    db: ConversationSpec,
    p: AppendTurns,
    turn_ids: Seq<Id>,
    now: Timestamp,
) -> ConversationSpec {
    let at = tables::row_of::<Conversation>(db.conversations, p.conversation_id)->0;
    ConversationSpec {
        conversations: db.conversations.update(
            at,
            conversations::grown(db.conversations[at], p.turns@.len(), now),
        ),
        turns: db.turns + appended(db, p, turn_ids, now),
    }
}

/// Turn identifiers are fit for use: no two are the same, and none is in use.
pub open spec fn turn_ids_fresh(db: ConversationSpec, ids: Seq<Id>) -> bool {
    ids.no_duplicates() && forall|i: int|
        0 <= i < ids.len() ==> content_laws::is_new::<Turn>(db.turns, #[trigger] ids[i])
}

proof fn lemma_max_ordinal(turns: Seq<TurnRow>, id: Id, n: nat)
    requires
        n <= turns.len(),
    ensures
        match conversations::max_ordinal(turns, id, n) {
            Some(m) => forall|i: int|
                0 <= i < n && (#[trigger] turns[i]).conversation_id == id ==> turns[i].ordinal <= m,
            None => forall|i: int| 0 <= i < n ==> (#[trigger] turns[i]).conversation_id != id,
        },
    decreases n,
{
    if n > 0 {
        lemma_max_ordinal(turns, id, (n - 1) as nat);
    }
}

/// What adding turns to one conversation does to the table of turns.
proof fn lemma_turns_added(
    db: ConversationSpec,
    given: Seq<CreateTurn>,
    id: Id,
    first: u32,
    ids: Seq<Id>,
    now: Timestamp,
)
    requires
        tables::distinct::<Turn>(db.turns),
        forall|i: int, j: int|
            0 <= i < j < db.turns.len() ==> (#[trigger] db.turns[i]).conversation_id != (
            #[trigger] db.turns[j]).conversation_id || db.turns[i].ordinal != db.turns[j].ordinal,
        forall|i: int|
            0 <= i < db.turns.len() && (#[trigger] db.turns[i]).conversation_id == id
                ==> db.turns[i].ordinal < first,
        first + given.len() <= u32::MAX,
        ids.len() >= given.len(),
        turn_ids_fresh(db, ids),
    ensures
        ({
            let rows = conversations::new_turns(given, id, first, ids, now);
            let turns = db.turns + rows;
            &&& tables::distinct::<Turn>(turns)
            &&& forall|i: int, j: int|
                0 <= i < j < turns.len() ==> (#[trigger] turns[i]).conversation_id != (
                #[trigger] turns[j]).conversation_id || turns[i].ordinal != turns[j].ordinal
            &&& content::owned::<Turn>(turns, id) == content::owned::<Turn>(db.turns, id) + rows
            &&& conversations::turns_of(turns, id) == conversations::turns_of(db.turns, id) + rows
            &&& forall|other: Id|
                other != id ==> #[trigger] content::owned::<Turn>(turns, other)
                    == content::owned::<Turn>(db.turns, other)
        }),
{
    let rows = conversations::new_turns(given, id, first, ids, now);
    let turns = db.turns + rows;
    let n = db.turns.len() as int;
    assert forall|i: int, j: int| 0 <= i < j < turns.len() implies Turn::id_of(
        #[trigger] turns[i],
    ) != Turn::id_of(#[trigger] turns[j]) && (turns[i].conversation_id != turns[j].conversation_id
        || turns[i].ordinal != turns[j].ordinal) by {
        if j < n {
            assert(turns[i] == db.turns[i] && turns[j] == db.turns[j]);
            assert(Turn::id_of(db.turns[i]) != Turn::id_of(db.turns[j]));
        } else {
            assert(turns[j] == rows[j - n]);
            assert(content_laws::is_new::<Turn>(db.turns, ids[j - n]));
            if i < n {
                assert(turns[i] == db.turns[i]);
                assert(Turn::id_of(db.turns[i]) != ids[j - n]);
            } else {
                assert(turns[i] == rows[i - n]);
                assert(ids[i - n] != ids[j - n]);
            }
        }
    }
    let keep = content::belongs::<Turn>(id);
    Seq::filter_distributes_over_add(db.turns, rows, keep);
    assert forall|i: int| 0 <= i < rows.len() implies keep(#[trigger] rows[i]) by {}
    content_laws::lemma_filter_every(rows, keep);
    let own = content::owned::<Turn>(db.turns, id);
    let order = conversation_model::by_ordinal();
    assert(ordering::is_order(order));
    assert(ordering::is_ordered(rows, order));
    assert forall|i: int, j: int| 0 <= i < own.len() && 0 <= j < rows.len() implies !order(
        #[trigger] rows[j],
        #[trigger] own[i],
    ) by {
        signals::lemma_filter_rows(db.turns, keep);
        assert(own.contains(own[i]));
        let x = choose|x: int| 0 <= x < db.turns.len() && db.turns[x] == own[i];
        assert(db.turns[x].ordinal < first);
    }
    ordering::law_later_rows_follow(own, rows, order);
    assert forall|other: Id| other != id implies #[trigger] content::owned::<Turn>(turns, other)
        == content::owned::<Turn>(db.turns, other) by {
        let with = content::belongs::<Turn>(other);
        Seq::filter_distributes_over_add(db.turns, rows, with);
        content_laws::lemma_filter_none(rows, with);
        assert(db.turns.filter(with) + Seq::<TurnRow>::empty() =~= db.turns.filter(with));
    }
}

/// A conversation that was created reads back with its first turns in order,
/// and the table stays well-formed.
pub proof fn law_created_conversation_reads_back(
    db: ConversationSpec,
    p: CreateConversation,
    id: Id,
    turn_ids: Seq<Id>,
    now: Timestamp,
)
    requires
        well_formed(db),
        conversations::create_fault(p) is None,
        content_laws::is_new::<Conversation>(db.conversations, id),
        turn_ids.len() >= conversations::first_turns(p).len(),
        conversations::first_turns(p).len() <= u32::MAX,
        turn_ids_fresh(db, turn_ids),
    ensures
        ({
            let after = with_created(db, p, id, turn_ids, now);
            &&& well_formed(after)
            &&& tables::row_of::<Conversation>(after.conversations, id) matches Some(i)
                && after.conversations[i] == conversations::new_conversation(p, id, now)
            &&& conversations::turns_of(after.turns, id) == conversations::new_turns(
                conversations::first_turns(p),
                id,
                0,
                turn_ids,
                now,
            )
        }),
{
    let after = with_created(db, p, id, turn_ids, now);
    let given = conversations::first_turns(p);
    let row = conversations::new_conversation(p, id, now);
    let rows = conversations::new_turns(given, id, 0, turn_ids, now);
    content_laws::lemma_pushed::<Conversation>(db.conversations, row);
    assert forall|i: int| 0 <= i < db.turns.len() implies (#[trigger] db.turns[i]).conversation_id
        != id by {
        tables::lemma_row_at::<Conversation>(db.conversations, id, db.conversations.len());
    }
    lemma_turns_added(db, given, id, 0, turn_ids, now);
    let keep = content::belongs::<Turn>(id);
    content_laws::lemma_filter_none(db.turns, keep);
    assert(content::owned::<Turn>(db.turns, id) == Seq::<TurnRow>::empty());
    assert(conversations::turns_of(db.turns, id) =~= Seq::empty());
    assert(Seq::<TurnRow>::empty() + rows =~= rows);
    assert forall|i: int| 0 <= i < after.turns.len() implies tables::row_of::<Conversation>(
        after.conversations,
        (#[trigger] after.turns[i]).conversation_id,
    ) is Some by {
        if i < db.turns.len() {
            assert(after.turns[i] == db.turns[i]);
        } else {
            assert(after.turns[i] == rows[i - db.turns.len()]);
        }
    }
    assert forall|i: int| 0 <= i < after.conversations.len() implies (
    #[trigger] after.conversations[i]).turn_count == content::owned::<Turn>(
        after.turns,
        after.conversations[i].id,
    ).len() by {
        if i < db.conversations.len() {
            assert(after.conversations[i] == db.conversations[i]);
            assert(Conversation::id_of(db.conversations[i]) != id);
        }
    }
}

/// Turns that were appended follow all others of the conversation, in their
/// order; the conversation counts them, and the table stays well-formed.
pub proof fn law_appended_turns_come_last(
    db: ConversationSpec,
    p: AppendTurns,
    turn_ids: Seq<Id>,
    now: Timestamp,
)
    requires
        well_formed(db),
        tables::row_of::<Conversation>(db.conversations, p.conversation_id) is Some,
        turn_ids.len() >= p.turns@.len(),
        conversations::next_ordinal(db.turns, p.conversation_id) + p.turns@.len() <= u32::MAX,
        db.conversations[tables::row_of::<Conversation>(
            db.conversations,
            p.conversation_id,
        )->0].turn_count + p.turns@.len() <= u32::MAX,
        turn_ids_fresh(db, turn_ids),
    ensures
        well_formed(with_appended(db, p, turn_ids, now)),
        conversations::turns_of(with_appended(db, p, turn_ids, now).turns, p.conversation_id)
            == conversations::turns_of(db.turns, p.conversation_id) + appended(
            db,
            p,
            turn_ids,
            now,
        ),
{
    let id = p.conversation_id;
    let after = with_appended(db, p, turn_ids, now);
    let rows = appended(db, p, turn_ids, now);
    let at = tables::row_of::<Conversation>(db.conversations, id)->0;
    let first = conversations::next_ordinal(db.turns, id) as u32;
    tables::lemma_row_at::<Conversation>(db.conversations, id, db.conversations.len());
    lemma_max_ordinal(db.turns, id, db.turns.len());
    lemma_turns_added(db, p.turns@, id, first, turn_ids, now);
    assert forall|other: Id| #[trigger] tables::row_of::<Conversation>(after.conversations, other)
        == tables::row_of::<Conversation>(db.conversations, other) by {
        content_laws::lemma_same_ids::<Conversation>(
            db.conversations,
            after.conversations,
            other,
            db.conversations.len(),
        );
    }
    assert forall|i: int| 0 <= i < after.turns.len() implies tables::row_of::<Conversation>(
        after.conversations,
        (#[trigger] after.turns[i]).conversation_id,
    ) is Some by {
        if i < db.turns.len() {
            assert(after.turns[i] == db.turns[i]);
        } else {
            assert(after.turns[i] == rows[i - db.turns.len()]);
        }
    }
    assert forall|i: int| 0 <= i < after.conversations.len() implies (
    #[trigger] after.conversations[i]).turn_count == content::owned::<Turn>(
        after.turns,
        after.conversations[i].id,
    ).len() by {
        assert(db.conversations[i].turn_count == content::owned::<Turn>(
            db.turns,
            db.conversations[i].id,
        ).len());
        if i != at {
            assert(after.conversations[i] == db.conversations[i]);
            assert(Conversation::id_of(db.conversations[i]) != Conversation::id_of(
                db.conversations[at],
            ));
        }
    }
    assert forall|i: int, j: int| 0 <= i < j < after.conversations.len() implies Conversation::id_of(
        #[trigger] after.conversations[i],
    ) != Conversation::id_of(#[trigger] after.conversations[j]) by {
        assert(Conversation::id_of(db.conversations[i]) != Conversation::id_of(
            db.conversations[j],
        ));
    }
}

/// A changed conversation reads back as the change gave it, keeps its turns,
/// and the table stays well-formed.
pub proof fn law_changed_conversation_reads_back(
    db: ConversationSpec,
    id: Id,
    p: UpdateConversation,
    now: Timestamp,
)
    requires
        well_formed(db),
        conversations::change_fault(db, id, p) is None,
    ensures
        ({
            let at = tables::row_of::<Conversation>(db.conversations, id)->0;
            let row = conversations::changed(db.conversations[at], p, now);
            let after = ConversationSpec {
                conversations: db.conversations.update(at, row),
                ..db
            };
            &&& well_formed(after)
            &&& tables::row_of::<Conversation>(after.conversations, id) matches Some(i)
                && after.conversations[i] == row
        }),
{
    let at = tables::row_of::<Conversation>(db.conversations, id)->0;
    let row = conversations::changed(db.conversations[at], p, now);
    let after = ConversationSpec { conversations: db.conversations.update(at, row), ..db };
    tables::lemma_row_at::<Conversation>(db.conversations, id, db.conversations.len());
    assert forall|other: Id| #[trigger] tables::row_of::<Conversation>(after.conversations, other)
        == tables::row_of::<Conversation>(db.conversations, other) by {
        content_laws::lemma_same_ids::<Conversation>(
            db.conversations,
            after.conversations,
            other,
            db.conversations.len(),
        );
    }
    assert forall|i: int| 0 <= i < after.conversations.len() implies (
    #[trigger] after.conversations[i]).turn_count == content::owned::<Turn>(
        after.turns,
        after.conversations[i].id,
    ).len() by {
        assert(db.conversations[i].turn_count == content::owned::<Turn>(
            db.turns,
            db.conversations[i].id,
        ).len());
    }
    assert forall|i: int, j: int| 0 <= i < j < after.conversations.len() implies Conversation::id_of(
        #[trigger] after.conversations[i],
    ) != Conversation::id_of(#[trigger] after.conversations[j]) by {
        assert(Conversation::id_of(db.conversations[i]) != Conversation::id_of(
            db.conversations[j],
        ));
    }
}

/// A deleted conversation is gone with all its turns; the others keep theirs,
/// and the table stays well-formed.
pub proof fn law_deleted_conversation_is_gone(db: ConversationSpec, id: Id)
    requires
        well_formed(db),
        tables::row_of::<Conversation>(db.conversations, id) is Some,
    ensures
        ({
            let after = conversations::without(db, id);
            &&& well_formed(after)
            &&& tables::row_of::<Conversation>(after.conversations, id) is None
            &&& forall|i: int|
                0 <= i < after.turns.len() ==> (#[trigger] after.turns[i]).conversation_id != id
            &&& forall|other: Id|
                other != id ==> #[trigger] content::owned::<Turn>(after.turns, other)
                    == content::owned::<Turn>(db.turns, other)
        }),
{
    let after = conversations::without(db, id);
    let at = tables::row_of::<Conversation>(db.conversations, id)->0;
    let keep = |row: TurnRow| !seq![id].contains(Turn::owner_of(row));
    tables::lemma_row_at::<Conversation>(db.conversations, id, db.conversations.len());
    tables::lemma_row_at::<Conversation>(after.conversations, id, after.conversations.len());
    content_laws::lemma_unowned::<Turn>(db.turns, seq![id]);
    content_laws::lemma_distinct_filter::<Turn>(db.turns, keep);
    assert(seq![id][0] == id);
    assert forall|other: Id| other != id implies #[trigger] content::owned::<Turn>(
        after.turns,
        other,
    ) == content::owned::<Turn>(db.turns, other) by {
        lemma_filter_twice(db.turns, keep, content::belongs::<Turn>(other));
    }
    assert forall|i: int| 0 <= i < after.conversations.len() implies Conversation::id_of(
        #[trigger] after.conversations[i],
    ) != id && after.conversations[i].turn_count == content::owned::<Turn>(
        after.turns,
        after.conversations[i].id,
    ).len() by {
        let j = if i < at {
            i
        } else {
            i + 1
        };
        assert(after.conversations[i] == db.conversations[j]);
        assert(Conversation::id_of(db.conversations[j]) != Conversation::id_of(
            db.conversations[at],
        ));
    }
    assert forall|i: int, j: int| 0 <= i < j < after.conversations.len() implies Conversation::id_of(
        #[trigger] after.conversations[i],
    ) != Conversation::id_of(#[trigger] after.conversations[j]) by {
        let a = if i < at {
            i
        } else {
            i + 1
        };
        let b = if j < at {
            j
        } else {
            j + 1
        };
        assert(after.conversations[i] == db.conversations[a]);
        assert(after.conversations[j] == db.conversations[b]);
    }
    assert forall|i: int| 0 <= i < after.turns.len() implies tables::row_of::<Conversation>(
        after.conversations,
        (#[trigger] after.turns[i]).conversation_id,
    ) is Some by {
        let t = after.turns[i];
        let x = choose|x: int| 0 <= x < db.turns.len() && db.turns[x] == t;
        assert(tables::row_of::<Conversation>(db.conversations, db.turns[x].conversation_id)
            is Some);
        tables::lemma_row_at::<Conversation>(
            db.conversations,
            t.conversation_id,
            db.conversations.len(),
        );
        let j = tables::row_of::<Conversation>(db.conversations, t.conversation_id)->0;
        let k = if j < at {
            j
        } else {
            j - 1
        };
        assert(after.conversations[k] == db.conversations[j]);
        content_laws::lemma_has_row::<Conversation>(after.conversations, k);
    }
    assert forall|i: int, j: int| 0 <= i < j < after.turns.len() implies (
    #[trigger] after.turns[i]).conversation_id != (#[trigger] after.turns[j]).conversation_id
        || after.turns[i].ordinal != after.turns[j].ordinal by {
        let (a, b) = signals::lemma_filter_order(db.turns, keep, i, j);
    }
}

/// Filtering by what a first filter keeps anyway is filtering once.
proof fn lemma_filter_twice<A>(s: Seq<A>, keep: spec_fn(A) -> bool, with: spec_fn(A) -> bool)
    requires
        forall|i: int| 0 <= i < s.len() && with(#[trigger] s[i]) ==> keep(s[i]),
    ensures
        s.filter(keep).filter(with) == s.filter(with),
    decreases s.len(),
{
    reveal(Seq::filter);
    if s.len() > 0 {
        let head = s.drop_last();
        assert forall|i: int| 0 <= i < head.len() && with(#[trigger] head[i]) implies keep(
            head[i],
        ) by {
            assert(head[i] == s[i]);
        }
        lemma_filter_twice(head, keep, with);
        let last = s[s.len() - 1];
        if keep(last) {
            let kept = head.filter(keep).push(last);
            assert(s.filter(keep) == kept);
            assert(kept.drop_last() =~= head.filter(keep));
        }
    }
}

} // verus!
