//! Benchmark fixtures are seen nowhere unless they are asked for.
use vstd::prelude::*;

use crate::block_model::Block;
use crate::blocks;
use crate::chunk_model::Chunk;
use crate::chunks;
use crate::content::ContentSpec;
use crate::entries;
use crate::entry_list;
use crate::entry_model::{self, EntryListQuery};
use crate::float_bits::F32Bits;
use crate::fulltext::{self, DedupedHit, FtsRow, SearchFilter};
use crate::ids::Id;
use crate::links;
use crate::model::{EntryRow, EntryRowSpec};
use crate::ordering;
use crate::tables;
use crate::visibility;

verus! {

/// The entry exists and is a benchmark fixture.
pub open spec fn is_fixture(db: ContentSpec, id: Id) -> bool {
    tables::row_of::<EntryRow>(db.entries, id) matches Some(i) && visibility::is_benchmark(
        db.entries[i].attrs,
    )
}

/// A fixture is not found, nor are its blocks and their chunks, and its blocks
/// are not listed.
pub proof fn law_fixtures_are_not_found(db: ContentSpec, id: Id)
    requires
        is_fixture(db, id),
    ensures
        !entries::visible(db, id, false),
        entries::visible(db, id, true),
        blocks::hidden(db, id, false),
        !blocks::hidden(db, id, true),
        forall|b: Id|
            (tables::row_of::<Block>(db.blocks, b) matches Some(i) && db.blocks[i].entry_id == id)
                ==> !#[trigger] blocks::block_visible(db, b, false) && blocks::block_visible(
                db,
                b,
                true,
            ),
        forall|c: Id|
            (tables::row_of::<Chunk>(db.chunks, c) is Some && tables::row_of::<Block>(
                db.blocks,
                chunks::chunk_row(db, c).block_id,
            ) is Some && chunks::block_row(db, c).entry_id == id)
                ==> !#[trigger] chunks::chunk_visible(db, c, false) && chunks::chunk_visible(
                db,
                c,
                true,
            ),
{
}

proof fn lemma_found(rows: Seq<EntryRowSpec>, q: EntryListQuery, n: nat)
    requires
        n <= rows.len(),
    ensures
        forall|i: int|
            0 <= i < entry_list::found(rows, q, false, n).len() ==> !visibility::is_benchmark(
                (#[trigger] entry_list::found(rows, q, false, n)[i]).attrs,
            ),
    decreases n,
{
    if n > 0 {
        let m = (n - 1) as nat;
        lemma_found(rows, q, m);
        let before = entry_list::found(rows, q, false, m);
        let out = entry_list::found(rows, q, false, n);
        assert forall|i: int| 0 <= i < out.len() implies !visibility::is_benchmark(
            (#[trigger] out[i]).attrs,
        ) by {
            if i < before.len() {
                assert(out[i] == before[i]);
            } else {
                assert(out[i] == rows[n - 1]);
            }
        }
    }
}

/// A list of entries holds no fixture.
pub proof fn law_fixtures_are_not_listed(db: ContentSpec, q: EntryListQuery)
    ensures
        forall|i: int|
            0 <= i < entry_list::page_of(db, q, false).len() ==> !visibility::is_benchmark(
                (#[trigger] entry_list::page_of(db, q, false)[i]).attrs,
            ),
{
    let all = entry_list::found(db.entries, q, false, db.entries.len());
    let before = entry_model::by_time(q.order);
    let sorted = ordering::in_order(all, before);
    let page = entry_list::page_of(db, q, false);
    lemma_found(db.entries, q, db.entries.len());
    assert(ordering::is_order(before));
    ordering::lemma_in_order_members(all, before);
    links::lemma_page_members(sorted, q.offset as nat, q.limit as nat);
    assert forall|i: int| 0 <= i < page.len() implies !visibility::is_benchmark(
        (#[trigger] page[i]).attrs,
    ) by {
        assert(sorted.contains(page[i]));
        assert(all.contains(page[i]));
        let k = choose|k: int| 0 <= k < all.len() && all[k] == page[i];
        assert(!visibility::is_benchmark(all[k].attrs));
    }
}

proof fn lemma_gathered(db: ContentSpec, rows: Seq<FtsRow>, filter: SearchFilter, n: nat)
    requires
        n <= rows.len(),
        !filter.include_benchmark,
    ensures
        forall|i: int|
            0 <= i < fulltext::gathered(db, rows, filter, n).len() ==> entries::visible(
                db,
                (#[trigger] fulltext::gathered(db, rows, filter, n)[i]).entry_id,
                false,
            ),
    decreases n,
{
    if n > 0 {
        let m = (n - 1) as nat;
        lemma_gathered(db, rows, filter, m);
        let before = fulltext::gathered(db, rows, filter, m);
        let out = fulltext::gathered(db, rows, filter, n);
        let row = rows[n - 1];
        if fulltext::wanted(db, row, filter) && row.block_id is Some {
            tables::lemma_row_at::<DedupedHit>(before, row.entry_id->0, before.len());
            assert forall|i: int| 0 <= i < out.len() implies entries::visible(
                db,
                (#[trigger] out[i]).entry_id,
                false,
            ) by {
                if i < before.len() {
                    assert(out[i].entry_id == before[i].entry_id);
                }
            }
        }
    }
}

proof fn lemma_nearest(
    db: ContentSpec,
    nearest: Seq<(Id, F32Bits)>,
    filter: SearchFilter,
    n: nat,
)
    requires
        n <= nearest.len(),
        !filter.include_benchmark,
    ensures
        forall|i: int|
            0 <= i < chunks::nearest_wanted(db, nearest, filter, n).len() ==> entries::visible(
                db,
                (#[trigger] chunks::nearest_wanted(db, nearest, filter, n)[i]).entry_id,
                false,
            ),
    decreases n,
{
    if n > 0 {
        lemma_nearest(db, nearest, filter, (n - 1) as nat);
    }
}

/// A search, by words or by vectors, finds no fixture.
pub proof fn law_fixtures_are_not_searched(
    db: ContentSpec,
    rows: Seq<FtsRow>,
    nearest: Seq<(Id, F32Bits)>,
    filter: SearchFilter,
)
    requires
        !filter.include_benchmark,
    ensures
        forall|i: int|
            0 <= i < fulltext::gathered(db, rows, filter, rows.len()).len() ==> !is_fixture(
                db,
                (#[trigger] fulltext::gathered(db, rows, filter, rows.len())[i]).entry_id,
            ),
        forall|i: int|
            0 <= i < chunks::nearest_wanted(db, nearest, filter, nearest.len()).len()
                ==> !is_fixture(
                db,
                (#[trigger] chunks::nearest_wanted(db, nearest, filter, nearest.len())[i]).entry_id,
            ),
{
    lemma_gathered(db, rows, filter, rows.len());
    lemma_nearest(db, nearest, filter, nearest.len());
}

} // verus!
