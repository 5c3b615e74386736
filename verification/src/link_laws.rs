//! What holds of links as a whole.
use vstd::prelude::*;

use crate::content::{self, ContentSpec};
use crate::content_laws;
use crate::ids::Id;
use crate::link_model::{self, CreateLink, Link, LinkRow, NeighborsQuery};
use crate::links;
use crate::model::{EntryRow, EntryRowSpec};
use crate::ordering;
use crate::signals;
use crate::tables::{self, HasId};
use crate::time::Timestamp;

verus! {

/// A link that was created reads back as it is, and the index stays
/// well-formed.
pub proof fn law_created_link_reads_back(db: ContentSpec, p: CreateLink, id: Id, now: Timestamp)
    requires
        db.well_formed(),
        links::create_fault(db, p, id, now) is None,
        content_laws::is_new::<Link>(db.links, id),
    ensures
        ({
            let row = links::new_link(p, id, now);
            let after = ContentSpec { links: db.links.push(row), ..db };
            &&& after.well_formed()
            &&& tables::row_of::<Link>(after.links, id) matches Some(i) && after.links[i] == row
        }),
{
    let row = links::new_link(p, id, now);
    let after = ContentSpec { links: db.links.push(row), ..db };
    content_laws::lemma_pushed::<Link>(db.links, row);
    assert forall|i: int| 0 <= i < after.links.len() implies after.has_entry(
        (#[trigger] after.links[i]).source_id,
    ) && after.has_entry(after.links[i].target_id) by {
        if i < db.links.len() {
            assert(after.links[i] == db.links[i]);
            assert(db.has_entry(db.links[i].source_id));
        }
    }
    assert forall|i: int, j: int| 0 <= i < j < after.links.len() implies !content::same_edge(
        #[trigger] after.links[i],
        #[trigger] after.links[j],
    ) by {
        assert(after.links[i] == db.links[i]);
        if j < db.links.len() {
            assert(after.links[j] == db.links[j]);
        }
    }
    assert forall|i: int| 0 <= i < after.blocks.len() implies after.has_entry(
        (#[trigger] after.blocks[i]).entry_id,
    ) by {
        assert(db.has_entry(db.blocks[i].entry_id));
    }
    assert forall|i: int| 0 <= i < after.chunks.len() implies after.has_block(
        (#[trigger] after.chunks[i]).block_id,
    ) by {
        assert(db.has_block(db.chunks[i].block_id));
    }
}

/// A deleted link is gone, and the index stays well-formed.
pub proof fn law_deleted_link_is_gone(db: ContentSpec, id: Id)
    requires
        db.well_formed(),
        tables::row_of::<Link>(db.links, id) is Some,
    ensures
        links::without_link(db, id).well_formed(),
        tables::row_of::<Link>(links::without_link(db, id).links, id) is None,
{
    let after = links::without_link(db, id);
    let at = tables::row_of::<Link>(db.links, id)->0;
    tables::lemma_row_at::<Link>(db.links, id, db.links.len());
    tables::lemma_row_at::<Link>(after.links, id, after.links.len());
    assert forall|i: int| 0 <= i < after.links.len() implies Link::id_of(#[trigger] after.links[i])
        != id && after.has_entry(after.links[i].source_id) && after.has_entry(
        after.links[i].target_id,
    ) by {
        let j = if i < at {
            i
        } else {
            i + 1
        };
        assert(after.links[i] == db.links[j]);
        assert(Link::id_of(db.links[j]) != Link::id_of(db.links[at]));
        assert(db.has_entry(db.links[j].source_id));
    }
    assert forall|i: int, j: int| 0 <= i < j < after.links.len() implies Link::id_of(
        #[trigger] after.links[i],
    ) != Link::id_of(#[trigger] after.links[j]) && !content::same_edge(
        after.links[i],
        after.links[j],
    ) by {
        let a = if i < at {
            i
        } else {
            i + 1
        };
        let b = if j < at {
            j
        } else {
            j + 1
        };
        assert(after.links[i] == db.links[a] && after.links[j] == db.links[b]);
    }
    assert forall|i: int| 0 <= i < after.blocks.len() implies after.has_entry(
        (#[trigger] after.blocks[i]).entry_id,
    ) by {
        assert(db.has_entry(db.blocks[i].entry_id));
    }
    assert forall|i: int| 0 <= i < after.chunks.len() implies after.has_block(
        (#[trigger] after.chunks[i]).block_id,
    ) by {
        assert(db.has_block(db.chunks[i].block_id));
    }
}

/// The entry stands at the other end of one of the links.
pub open spec fn is_reached(links: Seq<LinkRow>, id: Id, entry: Id) -> bool {
    exists|i: int| 0 <= i < links.len() && links::other_end(#[trigger] links[i], id) == entry
}

proof fn lemma_other_ends(entries: Seq<EntryRowSpec>, links: Seq<LinkRow>, id: Id, n: nat)
    requires
        n <= links.len(),
        forall|i: int|
            0 <= i < n ==> tables::row_of::<EntryRow>(
                entries,
                links::other_end(#[trigger] links[i], id),
            ) is Some,
    ensures
        ({
            let out = links::other_ends(entries, links, id, n);
            &&& forall|i: int|
                0 <= i < n ==> links::is_among(out, links::other_end(#[trigger] links[i], id))
            &&& forall|k: int| 0 <= k < out.len() ==> is_reached(links, id, (#[trigger] out[k]).id)
            &&& forall|j: int, k: int|
                0 <= j < k < out.len() ==> (#[trigger] out[j]).id != (#[trigger] out[k]).id
        }),
    decreases n,
{
    if n > 0 {
        let m = (n - 1) as nat;
        lemma_other_ends(entries, links, id, m);
        let before = links::other_ends(entries, links, id, m);
        let out = links::other_ends(entries, links, id, n);
        let other = links::other_end(links[n - 1], id);
        tables::lemma_row_at::<EntryRow>(entries, other, entries.len());
        if !links::is_among(before, other) {
            assert(out[before.len() as int].id == other);
            assert forall|i: int| 0 <= i < n implies links::is_among(
                out,
                links::other_end(#[trigger] links[i], id),
            ) by {
                if i < m {
                    let k = choose|k: int|
                        0 <= k < before.len() && (#[trigger] before[k]).id == links::other_end(
                            links[i],
                            id,
                        );
                    assert(out[k] == before[k]);
                }
            }
            assert forall|k: int| 0 <= k < out.len() implies is_reached(
                links,
                id,
                (#[trigger] out[k]).id,
            ) by {
                if k < before.len() {
                    assert(out[k] == before[k]);
                } else {
                    assert(links::other_end(links[n - 1], id) == out[k].id);
                }
            }
            assert forall|j: int, k: int| 0 <= j < k < out.len() implies (#[trigger] out[j]).id != (
            #[trigger] out[k]).id by {
                assert(out[j] == before[j]);
                if k < before.len() {
                    assert(out[k] == before[k]);
                }
            }
        }
    }
}

/// The neighbours are the other ends of the links that are followed, each of
/// them once; and every link that is followed leads where it was asked to.
pub proof fn law_neighbours_are_the_other_ends(db: ContentSpec, q: NeighborsQuery)
    ensures
        ({
            let links = links::followed(db, q);
            let found = links::other_ends(db.entries, links, q.id, links.len());
            &&& links.len() <= q.limit
            &&& forall|i: int|
                0 <= i < links.len() ==> db.links.contains(#[trigger] links[i]) && links::leads(
                    db,
                    q,
                )(links[i]) && links::is_among(found, links::other_end(links[i], q.id))
            &&& forall|k: int|
                0 <= k < found.len() ==> is_reached(links, q.id, (#[trigger] found[k]).id)
            &&& forall|j: int, k: int|
                0 <= j < k < found.len() ==> (#[trigger] found[j]).id != (#[trigger] found[k]).id
        }),
{
    let keep = links::leads(db, q);
    let raw = db.links.filter(keep);
    let all = ordering::in_order(raw, link_model::by_creation());
    let links = links::followed(db, q);
    signals::lemma_filter_rows(db.links, keep);
    assert(ordering::is_order(link_model::by_creation()));
    ordering::lemma_in_order_members(raw, link_model::by_creation());
    links::lemma_page_members(all, 0, q.limit as nat);
    assert forall|i: int| 0 <= i < links.len() implies db.links.contains(#[trigger] links[i])
        && keep(links[i]) by {
        assert(all.contains(links[i]));
        assert(raw.contains(links[i]));
    }
    lemma_other_ends(db.entries, links, q.id, links.len());
}

} // verus!
