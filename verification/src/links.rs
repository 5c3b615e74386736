//! Links between entries: creating, listing, following and deleting them.
use vstd::prelude::*;
use vstd::string::*;

use crate::attrs;
use crate::block_model::Block;
use crate::blocks;
use crate::content::{self, ContentDb, ContentSpec};
use crate::error::{CoreError, CoreFault};
use crate::event_model::{EventHead, HeadSpec};
use crate::ids::Id;
use crate::link_model::{
    self, CreateLink, Direction, Link, LinkRow, ListLinkQuery, ListLinkResult, NeighborsQuery,
    NeighborsResult,
};
use crate::model::{Entry, EntryRow, EntryRowSpec, EntrySpec};
use crate::ordering;
use crate::signals;
use crate::tables::{self, Copied};
use crate::text;
use crate::time::Timestamp;

verus! {

/// The link that is created.
pub open spec fn new_link(p: CreateLink, id: Id, now: Timestamp) -> LinkRow {
    LinkRow {
        id,
        source_id: p.source_id,
        target_id: p.target_id,
        relation: p.relation@,
        attrs: attrs::given(p.attrs),
        created_at: now,
    }
}

/// A link of the same relation joins the same entries already.
pub open spec fn edge_taken(links: Seq<LinkRow>, link: LinkRow) -> bool {
    exists|i: int| 0 <= i < links.len() && content::same_edge(#[trigger] links[i], link)
}

/// What is said of a link to or from an entry that does not exist.
pub open spec fn no_entry_fault() -> CoreFault {
    CoreFault::Validation("link constraint violation: FOREIGN KEY constraint failed"@)
}

/// What is said of a link that exists already.
pub open spec fn edge_fault() -> CoreFault {
    CoreFault::Validation(
        "link constraint violation: UNIQUE constraint failed: links.source_id, links.target_id, links.relation"@,
    )
}

/// Why a link cannot be created.
pub open spec fn create_fault(db: ContentSpec, p: CreateLink, id: Id, now: Timestamp) -> Option<
    CoreFault,
> {
    let link = new_link(p, id, now);
    if !(link.attrs is Object) {
        Some(blocks::attrs_fault())
    } else if !db.has_entry(link.source_id) || !db.has_entry(link.target_id) {
        Some(no_entry_fault())
    } else if edge_taken(db.links, link) {
        Some(edge_fault())
    } else {
        None
    }
}

/// The head of an event about a link.
pub open spec fn link_event(type_: Seq<char>, id: Id) -> HeadSpec {
    HeadSpec { type_, target_type: "link"@, target_id: id }
}

fn is_edge_taken(links: &Vec<Link>, link: &Link) -> (r: bool)
    ensures
        r == edge_taken(ordering::views(links@), link@),
{
    let ghost rows = ordering::views(links@);
    let mut i: usize = 0;
    while i < links.len()
        invariant
            i <= links.len(),
            rows == ordering::views(links@),
            forall|k: int| 0 <= k < i ==> !content::same_edge(#[trigger] rows[k], link@),
        decreases links.len() - i,
    {
        proof {
            assert(rows[i as int] == links@[i as int]@);
        }
        if links[i].source_id == link.source_id && links[i].target_id == link.target_id
            && text::same(links[i].relation.as_str(), link.relation.as_str()) {
            return true;
        }
        i += 1;
    }
    false
}

/// Create a directed link between two entries.
pub fn create_link(db: ContentDb, p: CreateLink, id: Id, now: Timestamp) -> (r: Result<
    (ContentDb, Link, EventHead),
    CoreError,
>)
    ensures
        match r {
            Ok((after, link, event)) => {
                &&& create_fault(db@, p, id, now) is None
                &&& link@ == new_link(p, id, now)
                &&& after@ == (ContentSpec { links: db@.links.push(link@), ..db@ })
                &&& event@ == link_event("link.created"@, id)
            },
            Err(e) => create_fault(db@, p, id, now) == Some(e@),
        },
{
    let ghost given = p;
    let CreateLink { source_id, target_id, relation, attrs } = p;
    let attrs = attrs::or_empty(attrs);
    if !attrs.is_object() {
        return Err(CoreError::validation("attrs must be a JSON object"));
    }
    let link = Link { id, source_id, target_id, relation, attrs, created_at: now };
    if tables::find_row(&db.entries, source_id).is_none() || tables::find_row(
        &db.entries,
        target_id,
    ).is_none() {
        return Err(
            CoreError::validation("link constraint violation: FOREIGN KEY constraint failed"),
        );
    }
    if is_edge_taken(&db.links, &link) {
        return Err(
            CoreError::validation(
                "link constraint violation: UNIQUE constraint failed: links.source_id, links.target_id, links.relation",
            ),
        );
    }
    let snapshot = link.copy();
    let ContentDb { entries, blocks, chunks, links } = db;
    let mut links = links;
    let ghost old_links = links@;
    let ghost row = link@;
    links.push(link);
    proof {
        assert(ordering::views(links@) =~= ordering::views(old_links).push(row));
    }
    let after = ContentDb { entries, blocks, chunks, links };
    Ok((after, snapshot, EventHead { type_: "link.created", target_type: "link", target_id: id }))
}

/// Get a link.
pub fn get_link(links: &Vec<Link>, id: Id) -> (r: Result<Link, CoreError>)
    ensures
        match r {
            Ok(l) => tables::row_of::<Link>(ordering::views(links@), id) matches Some(i) && l@
                == ordering::views(links@)[i],
            Err(e) => tables::row_of::<Link>(ordering::views(links@), id) is None && e@
                == CoreFault::NotFound(id),
        },
{
    match tables::find_row(links, id) {
        Some(i) => Ok(links[i].copy()),
        None => Err(CoreError::NotFound(id)),
    }
}

/// The index without a link.
pub open spec fn without_link(db: ContentSpec, id: Id) -> ContentSpec {
    ContentSpec { links: db.links.remove(tables::row_of::<Link>(db.links, id)->0), ..db }
}

/// Delete a link. Gives the link as it was.
pub fn delete_link(db: ContentDb, id: Id) -> (r: Result<(ContentDb, Link, EventHead), CoreError>)
    ensures
        match r {
            Ok((after, link, event)) => {
                &&& tables::row_of::<Link>(db@.links, id) matches Some(i) && link@ == db@.links[i]
                &&& after@ == without_link(db@, id)
                &&& event@ == link_event("link.deleted"@, id)
            },
            Err(e) => tables::row_of::<Link>(db@.links, id) is None && e@ == CoreFault::NotFound(
                id,
            ),
        },
{
    let at = match tables::find_row(&db.links, id) {
        Some(i) => i,
        None => {
            return Err(CoreError::NotFound(id));
        },
    };
    let ContentDb { entries, blocks, chunks, links } = db;
    let mut links = links;
    let ghost old_links = links@;
    let link = links.remove(at);
    proof {
        assert(ordering::views(links@) =~= ordering::views(old_links).remove(at as int));
    }
    let after = ContentDb { entries, blocks, chunks, links };
    Ok((after, link, EventHead { type_: "link.deleted", target_type: "link", target_id: id }))
}

/// The link is one of those asked for.
pub open spec fn listed(q: ListLinkQuery) -> spec_fn(LinkRow) -> bool {
    |l: LinkRow|
        {
            &&& q.from is None || q.from == Some(l.source_id)
            &&& q.to is None || q.to == Some(l.target_id)
            &&& q.relation is None || q.relation->0@ == l.relation
        }
}

/// Copy the links that are asked for.
fn copy_listed(links: &Vec<Link>, q: &ListLinkQuery) -> (r: Vec<Link>)
    ensures
        ordering::views(r@) == ordering::views(links@).filter(listed(*q)),
{
    let ghost keep = listed(*q);
    let ghost held = ordering::views(links@);
    let mut out: Vec<Link> = Vec::new();
    let mut i: usize = 0;
    proof {
        assert(held.take(0).filter(keep) =~= Seq::empty()) by {
            reveal(Seq::filter);
        }
        assert(ordering::views(out@) =~= Seq::empty());
    }
    while i < links.len()
        invariant
            i <= links.len(),
            held == ordering::views(links@),
            keep == listed(*q),
            ordering::views(out@) == held.take(i as int).filter(keep),
        decreases links.len() - i,
    {
        proof {
            assert(held[i as int] == links@[i as int]@);
            signals::lemma_filter_take(held, i as int, keep);
        }
        let l = &links[i];
        let from = match q.from {
            Some(id) => id == l.source_id,
            None => true,
        };
        let to = match q.to {
            Some(id) => id == l.target_id,
            None => true,
        };
        let relation = match &q.relation {
            Some(r) => text::same(r.as_str(), l.relation.as_str()),
            None => true,
        };
        if from && to && relation {
            let ghost before = out@;
            let row = l.copy();
            let ghost copied = row@;
            out.push(row);
            proof {
                assert(ordering::views(out@) =~= ordering::views(before).push(copied));
            }
        }
        i += 1;
    }
    proof {
        assert(held.take(i as int) =~= held);
    }
    out
}

/// List links by source, target and relation, oldest first, one page of them.
/// At least one of source and target must be given.
pub fn list_links(links: &Vec<Link>, q: &ListLinkQuery) -> (r: Result<ListLinkResult, CoreError>)
    ensures
        match r {
            Ok(out) => {
                let found = ordering::views(links@).filter(listed(*q));
                &&& q.from is Some || q.to is Some
                &&& ordering::views(out.items@) == tables::page(
                    ordering::in_order(found, link_model::by_creation()),
                    q.offset as nat,
                    q.limit as nat,
                )
                &&& out.total == found.len()
            },
            Err(e) => q.from is None && q.to is None && e@ == CoreFault::Validation(
                "list requires at least one of `from` or `to`"@,
            ),
        },
{
    if q.from.is_none() && q.to.is_none() {
        return Err(CoreError::validation("list requires at least one of `from` or `to`"));
    }
    let found = copy_listed(links, q);
    let total = found.len() as u64;
    let ghost rows = found@;
    let sorted = ordering::put_in_order(found, &());
    Ok(ListLinkResult { items: tables::take_page(sorted, q.offset, q.limit), total })
}

/// The entry at the other end of a link from `id`.
pub open spec fn other_end(l: LinkRow, id: Id) -> Id {
    if l.source_id == id {
        l.target_id
    } else {
        l.source_id
    }
}

/// The link leads away from, or to, the entry, is of the relation that is
/// asked for, and its other end exists.
pub open spec fn leads(db: ContentSpec, q: NeighborsQuery) -> spec_fn(LinkRow) -> bool {
    |l: LinkRow|
        {
            &&& match q.direction {
                Direction::Out => l.source_id == q.id,
                Direction::In => l.target_id == q.id,
                Direction::Both => l.source_id == q.id || l.target_id == q.id,
            }
            &&& q.relation is None || q.relation->0@ == l.relation
            &&& db.has_entry(other_end(l, q.id))
        }
}

fn copy_leading(db: &ContentDb, q: &NeighborsQuery) -> (r: Vec<Link>)
    ensures
        ordering::views(r@) == db@.links.filter(leads(db@, *q)),
{
    let ghost keep = leads(db@, *q);
    let ghost held = db@.links;
    let mut out: Vec<Link> = Vec::new();
    let mut i: usize = 0;
    proof {
        assert(held.take(0).filter(keep) =~= Seq::empty()) by {
            reveal(Seq::filter);
        }
        assert(ordering::views(out@) =~= Seq::empty());
    }
    while i < db.links.len()
        invariant
            i <= db.links.len(),
            held == db@.links,
            keep == leads(db@, *q),
            ordering::views(out@) == held.take(i as int).filter(keep),
        decreases db.links.len() - i,
    {
        proof {
            assert(held[i as int] == db.links@[i as int]@);
            signals::lemma_filter_take(held, i as int, keep);
        }
        let l = &db.links[i];
        let direction = match q.direction {
            Direction::Out => l.source_id == q.id,
            Direction::In => l.target_id == q.id,
            Direction::Both => l.source_id == q.id || l.target_id == q.id,
        };
        let relation = match &q.relation {
            Some(r) => text::same(r.as_str(), l.relation.as_str()),
            None => true,
        };
        let other = if l.source_id == q.id {
            l.target_id
        } else {
            l.source_id
        };
        if direction && relation && tables::find_row(&db.entries, other).is_some() {
            let ghost before = out@;
            let row = l.copy();
            let ghost copied = row@;
            out.push(row);
            proof {
                assert(ordering::views(out@) =~= ordering::views(before).push(copied));
            }
        }
        i += 1;
    }
    proof {
        assert(held.take(i as int) =~= held);
    }
    out
}

/// One of the entries has the identifier.
pub open spec fn is_among(entries: Seq<EntrySpec>, id: Id) -> bool {
    exists|k: int| 0 <= k < entries.len() && (#[trigger] entries[k]).id == id
}

/// The entries at the other ends of the first `n` links, each once.
pub open spec fn other_ends(
    entries: Seq<EntryRowSpec>,
    links: Seq<LinkRow>,
    id: Id,
    n: nat,
) -> Seq<EntrySpec>
    decreases n,
{
    if n == 0 {
        Seq::empty()
    } else {
        let before = other_ends(entries, links, id, (n - 1) as nat);
        let other = other_end(links[n - 1], id);
        if is_among(before, other) {
            before
        } else {
            before.push(
                entries[tables::row_of::<EntryRow>(entries, other)->0].with_blocks(Seq::empty()),
            )
        }
    }
}

fn find_entry(entries: &Vec<Entry>, id: Id) -> (r: bool)
    ensures
        r == is_among(ordering::views(entries@), id),
{
    let ghost rows = ordering::views(entries@);
    let mut k: usize = 0;
    while k < entries.len()
        invariant
            k <= entries.len(),
            rows == ordering::views(entries@),
            forall|j: int| 0 <= j < k ==> (#[trigger] rows[j]).id != id,
        decreases entries.len() - k,
    {
        proof {
            assert(rows[k as int] == entries@[k as int]@);
        }
        if entries[k].id == id {
            return true;
        }
        k += 1;
    }
    false
}

/// The links that are followed from an entry, oldest first.
pub open spec fn followed(db: ContentSpec, q: NeighborsQuery) -> Seq<LinkRow> {
    tables::page(
        ordering::in_order(db.links.filter(leads(db, q)), link_model::by_creation()),
        0,
        q.limit as nat,
    )
}

pub(crate) proof fn lemma_page_members<A>(rows: Seq<A>, offset: nat, limit: nat)
    ensures
        forall|i: int|
            0 <= i < tables::page(rows, offset, limit).len() ==> rows.contains(
                #[trigger] tables::page(rows, offset, limit)[i],
            ),
{
    let from = if offset <= rows.len() {
        offset as int
    } else {
        rows.len() as int
    };
    let out = tables::page(rows, offset, limit);
    assert forall|i: int| 0 <= i < out.len() implies rows.contains(#[trigger] out[i]) by {
        assert(out[i] == rows[from + i]);
    }
}

/// The neighbours of an entry and the links that lead to them. A neighbour
/// stands once among the entries, however many links lead to it.
pub fn neighbors(db: &ContentDb, q: &NeighborsQuery) -> (r: NeighborsResult)
    ensures
        ordering::views(r.links@) == followed(db@, *q),
        ordering::views(r.entries@) == other_ends(
            db@.entries,
            followed(db@, *q),
            q.id,
            followed(db@, *q).len(),
        ),
{
    let leading = copy_leading(db, q);
    let ghost raw = ordering::views(leading@);
    let sorted = ordering::put_in_order(leading, &());
    let links = tables::take_page(sorted, 0, q.limit);
    let ghost rows = followed(db@, *q);
    proof {
        let keep = leads(db@, *q);
        let all = ordering::in_order(raw, link_model::by_creation());
        signals::lemma_filter_rows(db@.links, keep);
        assert(ordering::is_order(link_model::by_creation()));
        ordering::lemma_in_order_members(raw, link_model::by_creation());
        lemma_page_members(all, 0, q.limit as nat);
        assert forall|i: int| 0 <= i < rows.len() implies db@.has_entry(
            other_end(#[trigger] rows[i], q.id),
        ) by {
            assert(all.contains(rows[i]));
            assert(raw.contains(rows[i]));
            assert(keep(rows[i]));
        }
    }
    let mut entries: Vec<Entry> = Vec::new();
    let mut i: usize = 0;
    proof {
        assert(ordering::views(entries@) =~= Seq::empty());
    }
    while i < links.len()
        invariant
            i <= links.len(),
            rows == ordering::views(links@),
            forall|k: int|
                0 <= k < rows.len() ==> db@.has_entry(other_end(#[trigger] rows[k], q.id)),
            ordering::views(entries@) == other_ends(db@.entries, rows, q.id, i as nat),
        decreases links.len() - i,
    {
        proof {
            assert(rows[i as int] == links@[i as int]@);
        }
        let other = if links[i].source_id == q.id {
            links[i].target_id
        } else {
            links[i].source_id
        };
        if !find_entry(&entries, other) {
            if let Some(at) = tables::find_row(&db.entries, other) {
                let ghost before = entries@;
                let e = db.entries[at].to_entry(Vec::new());
                let ghost row = e@;
                entries.push(e);
                proof {
                    assert(ordering::views(Seq::<Block>::empty()) =~= Seq::empty());
                    assert(row == db@.entries[at as int].with_blocks(Seq::empty()));
                    assert(ordering::views(entries@) =~= ordering::views(before).push(row));
                }
            }
        }
        i += 1;
    }
    NeighborsResult { entries, links }
}

} // verus!
