//! Reading and purging the log of events.
use vstd::prelude::*;
use vstd::string::*;

use crate::error::{CoreError, CoreFault};
use crate::event_model::{
    self, Event, EventRow, ListEventsQuery, ListEventsResult, ListOrder, PurgeQuery,
};
use crate::ids::Id;
use crate::ordering;
use crate::signals;
use crate::tables::{self, Copied};
use crate::text;

verus! {

/// The event is one of those asked for.
pub open spec fn listed(q: ListEventsQuery) -> spec_fn(EventRow) -> bool {
    |e: EventRow|
        {
            &&& q.since is None || e.id > q.since->0
            &&& q.type_ is None || q.type_->0@ == e.type_
            &&& q.target_type is None || q.target_type->0@ == e.target_type
            &&& q.target_id is None || q.target_id == Some(e.target_id)
        }
}

/// All events that are asked for, in the order that is asked for.
pub open spec fn found(events: Seq<EventRow>, q: ListEventsQuery) -> Seq<EventRow> {
    ordering::in_order(events.filter(listed(q)), event_model::by_id(q.order))
}

/// Whether an optional text asks for `s`.
fn asks_for(wanted: &Option<String>, s: &str) -> (r: bool)
    ensures
        r == (wanted is None || wanted->0@ == s@),
{
    match wanted {
        Some(w) => text::same(w.as_str(), s),
        None => true,
    }
}

/// List events: those after a given one, of a type, about a target. Says
/// whether there are more than the limit.
pub fn list_events(events: &Vec<Event>, q: &ListEventsQuery) -> (r: ListEventsResult)
    ensures
        ordering::views(r.items@) == tables::page(
            found(ordering::views(events@), *q),
            0,
            q.limit as nat,
        ),
        r.has_more == (found(ordering::views(events@), *q).len() > q.limit),
{
    let ghost keep = listed(*q);
    let ghost held = ordering::views(events@);
    let mut out: Vec<Event> = Vec::new();
    let mut i: usize = 0;
    proof {
        assert(held.take(0).filter(keep) =~= Seq::empty()) by {
            reveal(Seq::filter);
        }
        assert(ordering::views(out@) =~= Seq::empty());
    }
    while i < events.len()
        invariant
            i <= events.len(),
            held == ordering::views(events@),
            keep == listed(*q),
            ordering::views(out@) == held.take(i as int).filter(keep),
        decreases events.len() - i,
    {
        proof {
            assert(held[i as int] == events@[i as int]@);
            signals::lemma_filter_take(held, i as int, keep);
        }
        let e = &events[i];
        let since = match q.since {
            Some(id) => e.id > id,
            None => true,
        };
        let target = match q.target_id {
            Some(id) => e.target_id == id,
            None => true,
        };
        if since && target && asks_for(&q.type_, e.type_.as_str()) && asks_for(
            &q.target_type,
            e.target_type.as_str(),
        ) {
            let ghost before = out@;
            let row = e.copy();
            let ghost copied = row@;
            out.push(row);
            proof {
                assert(ordering::views(out@) =~= ordering::views(before).push(copied));
            }
        }
        i += 1;
    }
    proof {
        assert(held.take(i as int) =~= held);
    }
    let sorted = ordering::put_in_order(out, &q.order);
    let has_more = sorted.len() as u128 > q.limit as u128;
    proof {
        assert(ordering::views(sorted@).len() == sorted@.len());
    }
    ListEventsResult { items: tables::take_page(sorted, 0, q.limit), has_more }
}

/// Get an event.
pub fn get_event(events: &Vec<Event>, id: Id) -> (r: Result<Event, CoreError>)
    ensures
        match r {
            Ok(e) => tables::row_of::<Event>(ordering::views(events@), id) matches Some(i) && e@
                == ordering::views(events@)[i],
            Err(e) => tables::row_of::<Event>(ordering::views(events@), id) is None && e@
                == CoreFault::NotFound(id),
        },
{
    match tables::find_row(events, id) {
        Some(i) => Ok(events[i].copy()),
        None => Err(CoreError::NotFound(id)),
    }
}

/// The event stays when others are purged.
pub open spec fn spared(q: PurgeQuery) -> spec_fn(EventRow) -> bool {
    |e: EventRow| !(e.id < q.before && (q.type_ is None || q.type_->0@ == e.type_))
}

/// Purge the events before a given one, perhaps only those of a type. Says how
/// many went.
pub fn purge_events(events: Vec<Event>, q: &PurgeQuery) -> (r: (Vec<Event>, u64))
    ensures
        ordering::views(r.0@) == ordering::views(events@).filter(spared(*q)),
        r.1 == events@.len() - r.0@.len(),
{
    let ghost keep = spared(*q);
    let ghost all = events@;
    let ghost held = ordering::views(all);
    let total = events.len();
    let mut out: Vec<Event> = Vec::new();
    let mut gone: usize = 0;
    proof {
        assert(held.take(0).filter(keep) =~= Seq::empty()) by {
            reveal(Seq::filter);
        }
        assert(ordering::views(out@) =~= Seq::empty());
    }
    for e in it: events
        invariant
            it.seq() == all,
            held == ordering::views(all),
            total == all.len(),
            keep == spared(*q),
            gone + out.len() == it.index(),
            ordering::views(out@) == held.take(it.index() as int).filter(keep),
    {
        proof {
            let i = it.index() as int;
            assert(held[i] == e@);
            signals::lemma_filter_take(held, i, keep);
        }
        if e.id < q.before && asks_for(&q.type_, e.type_.as_str()) {
            gone += 1;
        } else {
            let ghost before = out@;
            let ghost kept = e@;
            out.push(e);
            proof {
                assert(ordering::views(out@) =~= ordering::views(before).push(kept));
            }
        }
    }
    proof {
        assert(held.take(held.len() as int) =~= held);
    }
    (out, gone as u64)
}

/// Reading the log page by page misses nothing: after a full page that ends
/// with the event `last`, asking for what is after `last` gives the rest.
pub proof fn law_pages_cover_the_log(events: Seq<EventRow>, q: ListEventsQuery, next: ListEventsQuery)
    requires
        tables::distinct::<Event>(events),
        q.order == ListOrder::Asc,
        0 < q.limit < found(events, q).len(),
        next.since == Some(found(events, q)[q.limit - 1].id),
        next.type_ == q.type_,
        next.target_type == q.target_type,
        next.target_id == q.target_id,
        next.order == q.order,
    ensures
        forall|e: EventRow|
            #![trigger events.contains(e)]
            events.contains(e) && listed(q)(e) ==> tables::page(
                found(events, q),
                0,
                q.limit as nat,
            ).contains(e) || found(events, next).contains(e),
{
    let order = event_model::by_id(q.order);
    let all = found(events, q);
    let rest = found(events, next);
    assert(ordering::is_order(order));
    ordering::law_in_order(events.filter(listed(q)), order);
    ordering::lemma_in_order_members(events.filter(listed(q)), order);
    ordering::lemma_in_order_members(events.filter(listed(next)), order);
    signals::lemma_filter_rows(events, listed(q));
    signals::lemma_filter_rows(events, listed(next));
    let first = tables::page(all, 0, q.limit as nat);
    assert forall|e: EventRow|
        #![trigger events.contains(e)]
        events.contains(e) && listed(q)(e) implies first.contains(e) || rest.contains(e) by {
        assert(events.filter(listed(q)).contains(e));
        assert(all.contains(e));
        let i = choose|i: int| 0 <= i < all.len() && all[i] == e;
        if i < q.limit {
            assert(first[i] == e);
        } else {
            let last = all[q.limit - 1];
            assert(all.contains(last));
            assert(events.filter(listed(q)).contains(last));
            assert(!order(all[i], all[q.limit - 1]));
            if e.id == last.id {
                let a = choose|a: int| 0 <= a < events.len() && events[a] == e;
                let b = choose|b: int| 0 <= b < events.len() && events[b] == last;
                assert(events.contains(last));
                assert(a == b);
                assert(e == last);
                assert(first[q.limit - 1] == e);
            } else {
                assert(listed(next)(e));
                assert(events.filter(listed(next)).contains(e));
            }
        }
    }
}

} // verus!
