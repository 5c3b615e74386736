//! What holds of reading and searching the index.
use vstd::prelude::*;
use vstd::string::*;

use crate::block_model::Block;
use crate::blocks;
use crate::chunk_model::{self, Chunk, ChunkRow, FoundSpec};
use crate::chunks;
use crate::content::{self, ContentSpec};
use crate::entries;
use crate::float_bits::F32Bits;
use crate::fulltext::{self, DedupedHit, FtsRow, HitSpec, SearchFilter};
use crate::ids::Id;
use crate::listing_laws;
use crate::model::EntryRow;
use crate::ordering;
use crate::signals;
use crate::snippet;
use crate::tables::{self, HasId};
use crate::visibility;

verus! {

/// The first entry of that identifier stands at `e`.
pub open spec fn is_entry(db: ContentSpec, id: Id, e: int) -> bool {
    &&& 0 <= e < db.entries.len()
    &&& db.entries[e].id == id
    &&& forall|j: int| 0 <= j < e ==> (#[trigger] db.entries[j]).id != id
}

/// The first block of that identifier stands at `b`.
pub open spec fn is_block(db: ContentSpec, id: Id, b: int) -> bool {
    &&& 0 <= b < db.blocks.len()
    &&& db.blocks[b].id == id
    &&& forall|j: int| 0 <= j < b ==> (#[trigger] db.blocks[j]).id != id
}

/// The first chunk of that identifier stands at `c`.
pub open spec fn is_chunk(db: ContentSpec, id: Id, c: int) -> bool {
    &&& 0 <= c < db.chunks.len()
    &&& db.chunks[c].id == id
    &&& forall|j: int| 0 <= j < c ==> (#[trigger] db.chunks[j]).id != id
}

proof fn lemma_entry(db: ContentSpec, id: Id, e: int)
    ensures
        is_entry(db, id, e) <==> tables::row_of::<EntryRow>(db.entries, id) == Some(e),
        tables::row_of::<EntryRow>(db.entries, id) is None <==> forall|j: int|
            0 <= j < db.entries.len() ==> (#[trigger] db.entries[j]).id != id,
{
    tables::lemma_row_at::<EntryRow>(db.entries, id, db.entries.len());
    if let Some(i) = tables::row_of::<EntryRow>(db.entries, id) {
        assert(db.entries[i].id == id);
        if is_entry(db, id, e) && e < i {
            assert(db.entries[e].id != id);
        }
        assert forall|j: int| 0 <= j < i implies (#[trigger] db.entries[j]).id != id by {
            assert(EntryRow::id_of(db.entries[j]) != id);
        }
    } else {
        assert forall|j: int| 0 <= j < db.entries.len() implies (#[trigger] db.entries[j]).id != id by {
            assert(EntryRow::id_of(db.entries[j]) != id);
        }
    }
}

proof fn lemma_block(db: ContentSpec, id: Id, b: int)
    ensures
        is_block(db, id, b) <==> tables::row_of::<Block>(db.blocks, id) == Some(b),
        tables::row_of::<Block>(db.blocks, id) is None <==> forall|j: int|
            0 <= j < db.blocks.len() ==> (#[trigger] db.blocks[j]).id != id,
{
    tables::lemma_row_at::<Block>(db.blocks, id, db.blocks.len());
    if let Some(i) = tables::row_of::<Block>(db.blocks, id) {
        assert(db.blocks[i].id == id);
        if is_block(db, id, b) && b < i {
            assert(db.blocks[b].id != id);
        }
        assert forall|j: int| 0 <= j < i implies (#[trigger] db.blocks[j]).id != id by {
            assert(Block::id_of(db.blocks[j]) != id);
        }
    } else {
        assert forall|j: int| 0 <= j < db.blocks.len() implies (#[trigger] db.blocks[j]).id != id by {
            assert(Block::id_of(db.blocks[j]) != id);
        }
    }
}

proof fn lemma_chunk(db: ContentSpec, id: Id, c: int)
    ensures
        is_chunk(db, id, c) <==> tables::row_of::<Chunk>(db.chunks, id) == Some(c),
        tables::row_of::<Chunk>(db.chunks, id) is None <==> forall|j: int|
            0 <= j < db.chunks.len() ==> (#[trigger] db.chunks[j]).id != id,
{
    tables::lemma_row_at::<Chunk>(db.chunks, id, db.chunks.len());
    if let Some(i) = tables::row_of::<Chunk>(db.chunks, id) {
        assert(db.chunks[i].id == id);
        if is_chunk(db, id, c) && c < i {
            assert(db.chunks[c].id != id);
        }
        assert forall|j: int| 0 <= j < i implies (#[trigger] db.chunks[j]).id != id by {
            assert(Chunk::id_of(db.chunks[j]) != id);
        }
    } else {
        assert forall|j: int| 0 <= j < db.chunks.len() implies (#[trigger] db.chunks[j]).id != id by {
            assert(Chunk::id_of(db.chunks[j]) != id);
        }
    }
}

/// An entry, a block and a chunk are found where they exist, unless the entry is
/// a fixture and those are not shown; and they are given as the index holds
/// them, an entry with all its blocks by their ordinals.
pub proof fn law_what_exists_is_found(
    db: ContentSpec,
    id: Id,
    include_benchmark: bool,
    e: int,
    b: int,
    c: int,
)
    ensures
        (forall|j: int| 0 <= j < db.entries.len() ==> (#[trigger] db.entries[j]).id != id)
            ==> !entries::visible(db, id, include_benchmark),
        is_entry(db, id, e) ==> {
            &&& entries::visible(db, id, include_benchmark) <==> (visibility::is_benchmark(
                db.entries[e].attrs,
            ) ==> include_benchmark)
            &&& listing_laws::shows_entry(entries::entry_of(db, id), db.entries[e], db.blocks, true)
        },
        (forall|j: int| 0 <= j < db.blocks.len() ==> (#[trigger] db.blocks[j]).id != id)
            ==> !blocks::block_visible(db, id, include_benchmark),
        is_block(db, id, b) ==> {
            &&& is_entry(db, db.blocks[b].entry_id, e) ==> (blocks::block_visible(
                db,
                id,
                include_benchmark,
            ) <==> (visibility::is_benchmark(db.entries[e].attrs) ==> include_benchmark))
            &&& db.blocks[tables::row_of::<Block>(db.blocks, id)->0] == db.blocks[b]
        },
        (forall|j: int| 0 <= j < db.chunks.len() ==> (#[trigger] db.chunks[j]).id != id)
            ==> !chunks::chunk_visible(db, id, include_benchmark),
        is_chunk(db, id, c) ==> {
            &&& is_block(db, db.chunks[c].block_id, b) && is_entry(db, db.blocks[b].entry_id, e)
                ==> (chunks::chunk_visible(db, id, include_benchmark) <==> (
            visibility::is_benchmark(db.entries[e].attrs) ==> include_benchmark))
            &&& db.chunks[tables::row_of::<Chunk>(db.chunks, id)->0] == db.chunks[c]
        },
{
    lemma_entry(db, id, e);
    lemma_block(db, id, b);
    lemma_chunk(db, id, c);
    if is_entry(db, id, e) {
        listing_laws::law_blocks_of_an_entry(db.blocks, id);
    }
    if is_block(db, id, b) {
        lemma_entry(db, db.blocks[b].entry_id, e);
    }
    if is_chunk(db, id, c) {
        lemma_block(db, db.chunks[c].block_id, b);
        if is_block(db, db.chunks[c].block_id, b) {
            lemma_entry(db, db.blocks[b].entry_id, e);
        }
    }
}

/// The lists of an entry's blocks and of a block's chunks are empty only for a
/// fixture that is not shown, or where there are none; otherwise they hold all
/// of them, by their ordinals.
pub proof fn law_chunks_of_a_block(db: ContentSpec, block: Id, include_benchmark: bool, b: int, e: int)
    ensures
        ({
            let out = chunks::chunks_of_block(db.chunks, block);
            &&& out.to_multiset() == db.chunks.filter(
                |c: ChunkRow| c.block_id == block,
            ).to_multiset()
            &&& forall|i: int, j: int|
                #![trigger out[i], out[j]]
                0 <= i < j < out.len() ==> out[i].ordinal <= out[j].ordinal
        }),
        is_entry(db, block, e) ==> (blocks::hidden(db, block, include_benchmark)
            <==> visibility::is_benchmark(db.entries[e].attrs) && !include_benchmark),
        is_block(db, block, b) && is_entry(db, db.blocks[b].entry_id, e) ==> (chunks::block_hidden(
            db,
            block,
            include_benchmark,
        ) <==> visibility::is_benchmark(db.entries[e].attrs) && !include_benchmark),
{
    let own = content::owned::<Chunk>(db.chunks, block);
    assert(content::belongs::<Chunk>(block) =~= (|c: ChunkRow| c.block_id == block));
    let before = chunk_model::by_ordinal();
    ordering::law_in_order(own, before);
    let out = chunks::chunks_of_block(db.chunks, block);
    assert forall|i: int, j: int|
        #![trigger out[i], out[j]]
        0 <= i < j < out.len() implies out[i].ordinal <= out[j].ordinal by {
        assert(!before(out[j], out[i]));
    }
    lemma_entry(db, block, e);
    lemma_block(db, block, b);
    if is_block(db, block, b) {
        lemma_entry(db, db.blocks[b].entry_id, e);
    }
}

/// The entry at `e` may be found by a block of that type: it is no hidden
/// fixture, and type and tag are those that were named.
pub open spec fn may_be_found(
    db: ContentSpec,
    e: int,
    block_type: Seq<char>,
    filter: SearchFilter,
) -> bool {
    &&& visibility::is_benchmark(db.entries[e].attrs) ==> filter.include_benchmark
    &&& filter.block_type is Some ==> block_type == filter.block_type->0@
    &&& filter.tag is Some ==> db.entries[e].tags.contains(filter.tag->0@)
}

/// The match counts: its identifiers can be read, and its entry may be found.
pub open spec fn counts(db: ContentSpec, row: FtsRow, filter: SearchFilter) -> bool {
    &&& row.entry_id is Some
    &&& row.block_id is Some
    &&& exists|e: int| #[trigger]
        is_entry(db, row.entry_id->0, e) && may_be_found(db, e, row.block_type@, filter)
}

proof fn lemma_entry_wanted(db: ContentSpec, id: Id, block_type: Seq<char>, filter: SearchFilter)
    ensures
        fulltext::entry_wanted(db, id, block_type, filter) <==> exists|e: int| #[trigger]
            is_entry(db, id, e) && may_be_found(db, e, block_type, filter),
{
    let at = tables::row_of::<EntryRow>(db.entries, id);
    if at is Some {
        lemma_entry(db, id, at->0);
        assert(is_entry(db, id, at->0));
    }
    if exists|e: int| #[trigger]
        is_entry(db, id, e) && may_be_found(db, e, block_type, filter) {
        let e = choose|e: int| #[trigger]
            is_entry(db, id, e) && may_be_found(db, e, block_type, filter);
        lemma_entry(db, id, e);
    }
}

proof fn lemma_counts(db: ContentSpec, row: FtsRow, filter: SearchFilter)
    ensures
        counts(db, row, filter) <==> fulltext::wanted(db, row, filter) && row.block_id is Some,
{
    if row.entry_id is Some {
        lemma_entry_wanted(db, row.entry_id->0, row.block_type@, filter);
    }
}

/// The matches of one entry, in their order.
pub open spec fn matches_of(
    db: ContentSpec,
    rows: Seq<FtsRow>,
    filter: SearchFilter,
    entry: Id,
) -> Seq<FtsRow> {
    rows.filter(|row: FtsRow| row.entry_id == Some(entry) && counts(db, row, filter))
}

/// The hit is what the entry's matches come to: it counts them all, names the
/// blocks of the first sixty-four, and shows the first, which is the best.
pub open spec fn gathers(hit: HitSpec, own: Seq<FtsRow>) -> bool {
    &&& own.len() > 0
    &&& hit.match_count == own.len()
    &&& hit.score == own[0].score
    &&& hit.best_block_id == own[0].block_id->0
    &&& hit.best_block_type == own[0].block_type@
    &&& hit.best_text == own[0].text@
    &&& hit.matched_block_ids.len() == if own.len() <= 64 {
        own.len()
    } else {
        64
    }
    &&& forall|k: int|
        0 <= k < hit.matched_block_ids.len() ==> #[trigger] hit.matched_block_ids[k]
            == own[k].block_id->0
}

proof fn lemma_gathered(
    db: ContentSpec,
    rows: Seq<FtsRow>,
    filter: SearchFilter,
    n: nat,
    entry: Id,
)
    requires
        n <= rows.len(),
        rows.len() <= u32::MAX,
    ensures
        ({
            let hits = fulltext::gathered(db, rows, filter, n);
            let own = matches_of(db, rows.take(n as int), filter, entry);
            match tables::row_of::<DedupedHit>(hits, entry) {
                Some(i) => 0 <= i < hits.len() && hits[i].entry_id == entry && gathers(hits[i], own),
                None => own.len() == 0,
            }
        }),
        matches_of(db, rows.take(n as int), filter, entry).len() <= n,
    decreases n,
{
    let keep = |row: FtsRow| row.entry_id == Some(entry) && counts(db, row, filter);
    let hits = fulltext::gathered(db, rows, filter, n);
    if n == 0 {
        reveal(Seq::filter);
        assert(rows.take(0).filter(keep) =~= Seq::empty());
    } else {
        let m = (n - 1) as nat;
        lemma_gathered(db, rows, filter, m, entry);
        let before = fulltext::gathered(db, rows, filter, m);
        let row = rows[n - 1];
        let own = matches_of(db, rows.take(m as int), filter, entry);
        signals::lemma_filter_take(rows, n - 1, keep);
        lemma_counts(db, row, filter);
        tables::lemma_row_at::<DedupedHit>(before, entry, before.len());
        tables::lemma_row_at::<DedupedHit>(hits, entry, hits.len());
        let at = tables::row_of::<DedupedHit>(before, entry);
        let after = tables::row_of::<DedupedHit>(hits, entry);
        if counts(db, row, filter) {
            let other = row.entry_id->0;
            tables::lemma_row_at::<DedupedHit>(before, other, before.len());
            let place = tables::row_of::<DedupedHit>(before, other);
            assert forall|j: int| 0 <= j < before.len() implies DedupedHit::id_of(
                #[trigger] hits[j],
            ) == DedupedHit::id_of(before[j]) by {}
            if at is Some {
                assert(DedupedHit::id_of(hits[at->0]) == entry);
                assert(after is Some);
                if after->0 < at->0 {
                    assert(DedupedHit::id_of(before[after->0]) != entry);
                } else if at->0 < after->0 {
                    assert(DedupedHit::id_of(hits[at->0]) != entry);
                }
                assert(after == at);
            } else if other == entry {
                assert(DedupedHit::id_of(hits[before.len() as int]) == entry);
                assert(after is Some);
                if after->0 < before.len() {
                    assert(DedupedHit::id_of(before[after->0]) != entry);
                }
            } else {
                if after is Some && after->0 < before.len() {
                    assert(DedupedHit::id_of(before[after->0]) != entry);
                }
            }
        }
    }
}

/// A full-text search gathers matches by entry: each entry that has a match that
/// counts is hit once, and its hit is what all of its matches come to.
pub proof fn law_every_match_is_gathered(
    db: ContentSpec,
    rows: Seq<FtsRow>,
    filter: SearchFilter,
    entry: Id,
)
    requires
        rows.len() <= u32::MAX,
    ensures
        ({
            let hits = fulltext::gathered(db, rows, filter, rows.len());
            let own = matches_of(db, rows, filter, entry);
            &&& own.len() > 0 ==> exists|i: int|
                0 <= i < hits.len() && (#[trigger] hits[i]).entry_id == entry
            &&& forall|i: int|
                0 <= i < hits.len() && (#[trigger] hits[i]).entry_id == entry ==> gathers(
                    hits[i],
                    own,
                )
        }),
{
    let hits = fulltext::gathered(db, rows, filter, rows.len());
    lemma_gathered(db, rows, filter, rows.len(), entry);
    assert(rows.take(rows.len() as int) =~= rows);
    fulltext::law_hits_are_gathered_by_entry(db, rows, filter, rows.len());
    tables::lemma_row_at::<DedupedHit>(hits, entry, hits.len());
    let at = tables::row_of::<DedupedHit>(hits, entry);
    if at is Some {
        assert(hits[at->0].entry_id == entry);
    }
    assert forall|i: int| 0 <= i < hits.len() && (#[trigger] hits[i]).entry_id == entry implies gathers(
        hits[i],
        matches_of(db, rows, filter, entry),
    ) by {
        assert(DedupedHit::id_of(hits[i]) == entry);
        if at is None {
            assert(DedupedHit::id_of(hits[i]) != entry);
        } else if at->0 < i {
            assert(DedupedHit::id_of(hits[at->0]) != DedupedHit::id_of(hits[i]));
        } else if i < at->0 {
            assert(DedupedHit::id_of(hits[i]) != DedupedHit::id_of(hits[at->0]));
        }
    }
}

/// The first match that counts of an entry stands at `r`.
pub open spec fn is_first_match(
    db: ContentSpec,
    rows: Seq<FtsRow>,
    filter: SearchFilter,
    entry: Id,
    r: int,
) -> bool {
    &&& 0 <= r < rows.len()
    &&& rows[r].entry_id == Some(entry)
    &&& counts(db, rows[r], filter)
    &&& forall|j: int|
        0 <= j < r ==> !(rows[j].entry_id == Some(entry) && #[trigger] counts(db, rows[j], filter))
}

proof fn lemma_first_matches(
    db: ContentSpec,
    rows: Seq<FtsRow>,
    filter: SearchFilter,
    n: nat,
    k: int,
) -> (r: int)
    requires
        n <= rows.len(),
        0 <= k < fulltext::gathered(db, rows, filter, n).len(),
    ensures
        k <= r < n,
        is_first_match(db, rows, filter, fulltext::gathered(db, rows, filter, n)[k].entry_id, r),
    decreases n,
{
    if n == 0 {
        0
    } else {
        let m = (n - 1) as nat;
        let before = fulltext::gathered(db, rows, filter, m);
        let hits = fulltext::gathered(db, rows, filter, n);
        let row = rows[n - 1];
        lemma_counts(db, row, filter);
        if counts(db, row, filter) {
            tables::lemma_row_at::<DedupedHit>(before, row.entry_id->0, before.len());
        }
        if k < before.len() {
            assert(hits[k].entry_id == before[k].entry_id);
            lemma_first_matches(db, rows, filter, m, k)
        } else {
            if before.len() > 0 {
                let last = lemma_first_matches(db, rows, filter, m, before.len() - 1);
            }
            let entry = row.entry_id->0;
            assert forall|j: int| 0 <= j < n - 1 implies !(rows[j].entry_id == Some(entry)
                && #[trigger] counts(db, rows[j], filter)) by {
                if rows[j].entry_id == Some(entry) && counts(db, rows[j], filter) {
                    lemma_has_hit(db, rows, filter, m, j);
                    let i = choose|i: int|
                        0 <= i < before.len() && (#[trigger] before[i]).entry_id == entry;
                    assert(DedupedHit::id_of(before[i]) != entry);
                }
            }
            n - 1
        }
    }
}

proof fn lemma_has_hit(
    db: ContentSpec,
    rows: Seq<FtsRow>,
    filter: SearchFilter,
    n: nat,
    j: int,
)
    requires
        0 <= j < n <= rows.len(),
        counts(db, rows[j], filter),
    ensures
        exists|i: int|
            0 <= i < fulltext::gathered(db, rows, filter, n).len() && (#[trigger] fulltext::gathered(
                db,
                rows,
                filter,
                n,
            )[i]).entry_id == rows[j].entry_id->0,
    decreases n,
{
    let m = (n - 1) as nat;
    let before = fulltext::gathered(db, rows, filter, m);
    let hits = fulltext::gathered(db, rows, filter, n);
    let row = rows[n - 1];
    lemma_counts(db, row, filter);
    if counts(db, row, filter) {
        tables::lemma_row_at::<DedupedHit>(before, row.entry_id->0, before.len());
    }
    if j < m {
        lemma_has_hit(db, rows, filter, m, j);
        let i = choose|i: int|
            0 <= i < before.len() && (#[trigger] before[i]).entry_id == rows[j].entry_id->0;
        assert(hits[i].entry_id == before[i].entry_id);
    } else {
        match tables::row_of::<DedupedHit>(before, row.entry_id->0) {
            Some(i) => {
                assert(hits[i].entry_id == row.entry_id->0);
            },
            None => {
                assert(hits[before.len() as int].entry_id == row.entry_id->0);
            },
        }
    }
}

/// Hits stand in the order of their entries' first matches.
pub proof fn law_hits_come_by_first_match(
    db: ContentSpec,
    rows: Seq<FtsRow>,
    filter: SearchFilter,
    n: nat,
    k: int,
    l: int,
) -> (r: (int, int))
    requires
        n <= rows.len(),
        0 <= k < l < fulltext::gathered(db, rows, filter, n).len(),
    ensures
        r.0 < r.1,
        is_first_match(
            db,
            rows,
            filter,
            fulltext::gathered(db, rows, filter, n)[k].entry_id,
            r.0,
        ),
        is_first_match(
            db,
            rows,
            filter,
            fulltext::gathered(db, rows, filter, n)[l].entry_id,
            r.1,
        ),
    decreases n,
{
    if n == 0 {
        (0, 0)
    } else {
        let m = (n - 1) as nat;
        let before = fulltext::gathered(db, rows, filter, m);
        let hits = fulltext::gathered(db, rows, filter, n);
        let row = rows[n - 1];
        lemma_counts(db, row, filter);
        if counts(db, row, filter) {
            tables::lemma_row_at::<DedupedHit>(before, row.entry_id->0, before.len());
        }
        assert(k < before.len() && hits[k].entry_id == before[k].entry_id);
        let a = lemma_first_matches(db, rows, filter, m, k);
        if l < before.len() {
            assert(hits[l].entry_id == before[l].entry_id);
            law_hits_come_by_first_match(db, rows, filter, m, k, l)
        } else {
            let b = lemma_first_matches(db, rows, filter, n, l);
            assert(b == n - 1) by {
                assert(l <= b < n);
                if b < n - 1 {
                    lemma_has_hit(db, rows, filter, m, b);
                    let i = choose|i: int|
                        0 <= i < before.len() && (#[trigger] before[i]).entry_id
                            == rows[b].entry_id->0;
                    assert(DedupedHit::id_of(before[i]) != row.entry_id->0);
                }
            }
            (a, b)
        }
    }
}

proof fn lemma_answered(
    db: ContentSpec,
    hits: Seq<HitSpec>,
    query: Seq<char>,
    include_benchmark: bool,
    n: nat,
)
    requires
        n <= hits.len(),
        forall|i: int|
            0 <= i < hits.len() ==> entries::visible(
                db,
                (#[trigger] hits[i]).entry_id,
                include_benchmark,
            ),
    ensures
        ({
            let out = fulltext::answered(db, hits, query, include_benchmark, n);
            out.len() == n && forall|i: int|
                0 <= i < n ==> #[trigger] out[i] == fulltext::result_of(db, hits[i], query)
        }),
    decreases n,
{
    if n > 0 {
        lemma_answered(db, hits, query, include_benchmark, (n - 1) as nat);
        assert(entries::visible(db, hits[n - 1].entry_id, include_benchmark));
    }
}

/// A full-text search answers the first hits, as many as the limit: each with
/// its entry as the index holds it, without blocks, with its score, its count
/// and its blocks, and with a snippet of its best block.
pub proof fn law_search_answers_the_first_hits(
    db: ContentSpec,
    rows: Seq<FtsRow>,
    filter: SearchFilter,
    query: Seq<char>,
    limit: u32,
    k: int,
) -> (e: int)
    requires
        rows.len() <= u32::MAX,
    ensures
        ({
            let all = fulltext::gathered(db, rows, filter, rows.len());
            let hits = tables::page(all, 0, limit as nat);
            let out = fulltext::answered(db, hits, query, filter.include_benchmark, hits.len());
            &&& out.len() == if all.len() <= limit {
                all.len()
            } else {
                limit as nat
            }
            &&& 0 <= k < out.len() ==> {
                &&& is_entry(db, all[k].entry_id, e)
                &&& listing_laws::shows_entry(out[k].entry, db.entries[e], db.blocks, false)
                &&& out[k].score == all[k].score
                &&& out[k].match_count == all[k].match_count
                &&& out[k].matched_block_ids == all[k].matched_block_ids
                &&& out[k].block_id == all[k].best_block_id
                &&& out[k].block_type == all[k].best_block_type
                &&& out[k].snippet == snippet::snippet_of(all[k].best_text, query)
            }
        }),
{
    let all = fulltext::gathered(db, rows, filter, rows.len());
    let hits = tables::page(all, 0, limit as nat);
    assert forall|i: int| 0 <= i < hits.len() implies entries::visible(
        db,
        (#[trigger] hits[i]).entry_id,
        filter.include_benchmark,
    ) by {
        assert(hits[i] == all[i]);
        let r = lemma_first_matches(db, rows, filter, rows.len(), i);
        let e = choose|e: int| #[trigger]
            is_entry(db, rows[r].entry_id->0, e) && may_be_found(
                db,
                e,
                rows[r].block_type@,
                filter,
            );
        lemma_entry(db, hits[i].entry_id, e);
    }
    lemma_answered(db, hits, query, filter.include_benchmark, hits.len());
    if 0 <= k < hits.len() {
        assert(hits[k] == all[k]);
        assert(entries::visible(db, hits[k].entry_id, filter.include_benchmark));
        let e = tables::row_of::<EntryRow>(db.entries, all[k].entry_id)->0;
        lemma_entry(db, all[k].entry_id, e);
        e
    } else {
        0
    }
}

/// The nearest chunk counts: it, its block and its entry exist, and the entry
/// may be found by the block.
pub open spec fn chunk_counts(db: ContentSpec, id: Id, filter: SearchFilter) -> bool {
    exists|c: int, b: int, e: int| #[trigger]
        are_at(db, id, c, b, e) && may_be_found(db, e, db.blocks[b].type_, filter)
}

/// The chunk stands at `c`, its block at `b` and that one's entry at `e`.
pub open spec fn are_at(db: ContentSpec, id: Id, c: int, b: int, e: int) -> bool {
    is_chunk(db, id, c) && is_block(db, db.chunks[c].block_id, b) && is_entry(
        db,
        db.blocks[b].entry_id,
        e,
    )
}

proof fn lemma_chunk_counts(db: ContentSpec, id: Id, filter: SearchFilter)
    ensures
        chunk_counts(db, id, filter) <==> chunks::chunk_wanted(db, id, filter),
{
    if chunks::chunk_wanted(db, id, filter) {
        let c = tables::row_of::<Chunk>(db.chunks, id)->0;
        lemma_chunk(db, id, c);
        let b = tables::row_of::<Block>(db.blocks, db.chunks[c].block_id)->0;
        lemma_block(db, db.chunks[c].block_id, b);
        lemma_entry_wanted(db, db.blocks[b].entry_id, db.blocks[b].type_, filter);
        let e = choose|e: int| #[trigger]
            is_entry(db, db.blocks[b].entry_id, e) && may_be_found(
                db,
                e,
                db.blocks[b].type_,
                filter,
            );
        assert(are_at(db, id, c, b, e));
    }
    if chunk_counts(db, id, filter) {
        let (c, b, e) = choose|c: int, b: int, e: int| #[trigger]
            are_at(db, id, c, b, e) && may_be_found(db, e, db.blocks[b].type_, filter);
        lemma_chunk(db, id, c);
        lemma_block(db, db.chunks[c].block_id, b);
        lemma_entry_wanted(db, db.blocks[b].entry_id, db.blocks[b].type_, filter);
    }
}

/// The answer for a nearest chunk: the chunk as the index holds it, the entry
/// of its block, and the score that was given.
pub open spec fn is_found(db: ContentSpec, near: (Id, F32Bits), found: FoundSpec) -> bool {
    &&& found.score == near.1
    &&& exists|c: int| #[trigger] is_chunk(db, near.0, c) && found.chunk == db.chunks[c]
    &&& exists|b: int| #[trigger]
        is_block(db, found.chunk.block_id, b) && found.entry_id == db.blocks[b].entry_id
}

proof fn lemma_nearest(
    db: ContentSpec,
    nearest: Seq<(Id, F32Bits)>,
    filter: SearchFilter,
    n: nat,
)
    requires
        n <= nearest.len(),
    ensures
        ({
            let out = chunks::nearest_wanted(db, nearest, filter, n);
            let kept = nearest.take(n as int).filter(
                |near: (Id, F32Bits)| chunk_counts(db, near.0, filter),
            );
            out.len() == kept.len() && forall|k: int|
                0 <= k < out.len() ==> is_found(db, kept[k], #[trigger] out[k])
        }),
    decreases n,
{
    let keep = |near: (Id, F32Bits)| chunk_counts(db, near.0, filter);
    if n == 0 {
        reveal(Seq::filter);
        assert(nearest.take(0).filter(keep) =~= Seq::empty());
    } else {
        lemma_nearest(db, nearest, filter, (n - 1) as nat);
        signals::lemma_filter_take(nearest, n - 1, keep);
        let id = nearest[n - 1].0;
        lemma_chunk_counts(db, id, filter);
        if chunks::chunk_wanted(db, id, filter) {
            let c = tables::row_of::<Chunk>(db.chunks, id)->0;
            lemma_chunk(db, id, c);
            let b = tables::row_of::<Block>(db.blocks, db.chunks[c].block_id)->0;
            lemma_block(db, db.chunks[c].block_id, b);
            assert(is_chunk(db, id, c));
            assert(is_block(db, db.chunks[c].block_id, b));
        }
    }
}

/// A search by vectors answers the nearest chunks that count, in the order and
/// with the scores that were given.
pub proof fn law_nearest_chunks_are_answered(
    db: ContentSpec,
    nearest: Seq<(Id, F32Bits)>,
    filter: SearchFilter,
)
    ensures
        ({
            let out = chunks::nearest_wanted(db, nearest, filter, nearest.len());
            let kept = nearest.filter(|near: (Id, F32Bits)| chunk_counts(db, near.0, filter));
            out.len() == kept.len() && forall|k: int|
                0 <= k < out.len() ==> is_found(db, kept[k], #[trigger] out[k])
        }),
{
    lemma_nearest(db, nearest, filter, nearest.len());
    assert(nearest.take(nearest.len() as int) =~= nearest);
}

} // verus!
