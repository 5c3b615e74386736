//! What holds of the index of content as a whole.
use vstd::prelude::*;

use crate::attrs;
use crate::block_model::{self, Block, BlockInput, BlockRow, CreateSpec};
use crate::blocks::{self, BlockChange};
use crate::chunk_model::{Chunk, ChunkRow};
use crate::content::{self, ContentSpec, Owned};
use crate::entries::{self, FreshIds};
use crate::entry_model::{CreateEntry, UpdateEntry};
use crate::ids::Id;
use crate::link_model::Link;
use crate::links;
use crate::model::{EntryRow, EntryRowSpec};
use crate::nomai_format::BlockType;
use crate::ordering;
use crate::signals;
use crate::tables::{self, HasId};
use crate::time::Timestamp;

verus! {

/// No row has the identifier.
pub open spec fn is_new<T: HasId>(rows: Seq<T::V>, id: Id) -> bool {
    forall|i: int| 0 <= i < rows.len() ==> T::id_of(#[trigger] rows[i]) != id
}

/// A row that is put behind others that lack its identifier is found there, and
/// the others where they were.
proof fn lemma_row_of_push<T: HasId>(rows: Seq<T::V>, row: T::V, id: Id, n: nat)
    requires
        n <= rows.len(),
    ensures
        tables::row_at::<T>(rows.push(row), id, n) == tables::row_at::<T>(rows, id, n),
    decreases n,
{
    if n > 0 {
        lemma_row_of_push::<T>(rows, row, id, (n - 1) as nat);
        assert(rows.push(row)[n - 1] == rows[n - 1]);
    }
}

pub(crate) proof fn lemma_pushed<T: HasId>(rows: Seq<T::V>, row: T::V)
    requires
        is_new::<T>(rows, T::id_of(row)),
    ensures
        tables::row_of::<T>(rows.push(row), T::id_of(row)) == Some(rows.len() as int),
        forall|id: Id|
            id != T::id_of(row) ==> #[trigger] tables::row_of::<T>(rows.push(row), id)
                == tables::row_of::<T>(rows, id),
        tables::distinct::<T>(rows) ==> tables::distinct::<T>(rows.push(row)),
{
    let id = T::id_of(row);
    lemma_row_of_push::<T>(rows, row, id, rows.len());
    tables::lemma_row_at::<T>(rows, id, rows.len());
    assert forall|other: Id| other != id implies #[trigger] tables::row_of::<T>(
        rows.push(row),
        other,
    ) == tables::row_of::<T>(rows, other) by {
        lemma_row_of_push::<T>(rows, row, other, rows.len());
    }
}

/// Chunk identifiers are fit for a block: no two are the same, and none is in
/// use.
pub open spec fn chunk_ids_fresh(chunks: Seq<ChunkRow>, ids: Seq<Id>) -> bool {
    ids.no_duplicates() && forall|i: int|
        0 <= i < ids.len() ==> is_new::<Chunk>(chunks, #[trigger] ids[i])
}

/// A block can be created where there is none of its name and place.
proof fn lemma_with_block(
    db: ContentSpec,
    block: BlockRow,
    chunk_ids: Seq<Id>,
    target: usize,
)
    requires
        db.well_formed(),
        db.has_entry(block.entry_id),
        !blocks::place_taken(db.blocks, block.entry_id, block.ordinal),
        is_new::<Block>(db.blocks, block.id),
        chunk_ids.len() >= blocks::chunk_count(block.text, target),
        chunk_ids_fresh(db.chunks, chunk_ids),
    ensures
        blocks::with_block(db, block, chunk_ids, target).well_formed(),
{
    let after = blocks::with_block(db, block, chunk_ids, target);
    let made = blocks::chunks_for(block, chunk_ids, target, block.created_at);
    lemma_pushed::<Block>(db.blocks, block);
    assert(after.entries == db.entries && after.links == db.links);
    assert forall|i: int| 0 <= i < after.blocks.len() implies after.has_entry(
        (#[trigger] after.blocks[i]).entry_id,
    ) by {
        if i < db.blocks.len() {
            assert(db.has_entry(db.blocks[i].entry_id));
        }
    }
    assert forall|i: int| 0 <= i < after.chunks.len() implies after.has_block(
        (#[trigger] after.chunks[i]).block_id,
    ) by {
        if i < db.chunks.len() {
            assert(after.chunks[i] == db.chunks[i]);
            assert(db.has_block(db.chunks[i].block_id));
        } else {
            assert(after.chunks[i] == made[i - db.chunks.len()]);
        }
    }
    assert forall|i: int, j: int| 0 <= i < j < after.chunks.len() implies Chunk::id_of(
        #[trigger] after.chunks[i],
    ) != Chunk::id_of(#[trigger] after.chunks[j]) by {
        let n = db.chunks.len() as int;
        if j < n {
            assert(after.chunks[i] == db.chunks[i] && after.chunks[j] == db.chunks[j]);
        } else {
            assert(after.chunks[j] == made[j - n]);
            assert(is_new::<Chunk>(db.chunks, chunk_ids[j - n]));
            if i < n {
                assert(after.chunks[i] == db.chunks[i]);
            } else {
                assert(after.chunks[i] == made[i - n]);
                assert(chunk_ids[i - n] != chunk_ids[j - n]);
            }
        }
    }
    assert forall|i: int, j: int| 0 <= i < j < after.blocks.len() implies (
    #[trigger] after.blocks[i]).entry_id != (#[trigger] after.blocks[j]).entry_id
        || after.blocks[i].ordinal != after.blocks[j].ordinal by {
        if j == db.blocks.len() {
            assert(after.blocks[i] == db.blocks[i]);
        }
    }
    assert forall|i: int| 0 <= i < after.links.len() implies after.has_entry(
        (#[trigger] after.links[i]).source_id,
    ) && after.has_entry(after.links[i].target_id) by {
        assert(db.has_entry(db.links[i].source_id));
    }
}

/// A block that was created is read back as it is, and the index stays
/// well-formed.
pub proof fn law_created_block_reads_back(
    db: ContentSpec,
    p: CreateSpec,
    id: Id,
    chunk_ids: Seq<Id>,
    target: usize,
    now: Timestamp,
)
    requires
        db.well_formed(),
        blocks::create_fault(db, p) is None,
        is_new::<Block>(db.blocks, id),
        chunk_ids.len() >= blocks::chunk_count(p.text, target),
        chunk_ids_fresh(db.chunks, chunk_ids),
    ensures
        ({
            let row = blocks::new_block(p, id, now);
            let after = blocks::with_block(db, row, chunk_ids, target);
            &&& after.well_formed()
            &&& tables::row_of::<Block>(after.blocks, id) matches Some(i) && after.blocks[i] == row
            &&& blocks::blocks_of(after.blocks, p.entry_id).contains(row)
        }),
{
    let row = blocks::new_block(p, id, now);
    let after = blocks::with_block(db, row, chunk_ids, target);
    lemma_with_block(db, row, chunk_ids, target);
    lemma_pushed::<Block>(db.blocks, row);
    let keep = content::belongs::<Block>(p.entry_id);
    signals::lemma_filter_rows(after.blocks, keep);
    let own = content::owned::<Block>(after.blocks, p.entry_id);
    assert(after.blocks[db.blocks.len() as int] == row);
    assert(after.blocks.contains(row));
    assert(keep(row));
    assert(own.contains(row));
    assert(ordering::is_order(block_model::by_ordinal()));
    ordering::lemma_in_order_members(own, block_model::by_ordinal());
}

proof fn lemma_max_ordinal(blocks: Seq<BlockRow>, entry: Id, n: nat)
    requires
        n <= blocks.len(),
    ensures
        match blocks::max_ordinal(blocks, entry, n) {
            Some(m) => forall|i: int|
                0 <= i < n && (#[trigger] blocks[i]).entry_id == entry ==> blocks[i].ordinal <= m,
            None => forall|i: int| 0 <= i < n ==> (#[trigger] blocks[i]).entry_id != entry,
        },
    decreases n,
{
    if n > 0 {
        lemma_max_ordinal(blocks, entry, (n - 1) as nat);
    }
}

/// A block that is appended follows all others of its entry. It is refused only
/// where its attributes are not an object or its type is not known. (Where an ordinal is the largest
/// that there is, nothing can follow it.)
pub proof fn law_appended_block_comes_last(
    db: ContentSpec,
    entry: Id,
    type_: Seq<char>,
    text: Seq<char>,
    attributes: attrs::AttrsSpec,
)
    requires
        db.has_entry(entry),
        attributes is Object,
        BlockType::named(type_) is Some,
        blocks::max_ordinal(db.blocks, entry, db.blocks.len()) != Some(u32::MAX),
    ensures
        ({
            let p = blocks::appended(db, entry, type_, text, attributes);
            &&& blocks::create_fault(db, p) is None
            &&& forall|i: int|
                0 <= i < db.blocks.len() && (#[trigger] db.blocks[i]).entry_id == entry
                    ==> db.blocks[i].ordinal < p.ordinal
        }),
{
    lemma_max_ordinal(db.blocks, entry, db.blocks.len());
}

pub(crate) proof fn lemma_unowned<T: content::Owned>(rows: Seq<T::V>, owners: Seq<Id>)
    ensures
        forall|i: int|
            0 <= i < content::unowned::<T>(rows, owners).len() ==> !owners.contains(
                T::owner_of(#[trigger] content::unowned::<T>(rows, owners)[i]),
            ) && rows.contains(content::unowned::<T>(rows, owners)[i]),
{
    let keep = |row: T::V| !owners.contains(T::owner_of(row));
    let out = content::unowned::<T>(rows, owners);
    signals::lemma_filter_rows(rows, keep);
    assert forall|i: int| 0 <= i < out.len() implies !owners.contains(
        T::owner_of(#[trigger] out[i]),
    ) && rows.contains(out[i]) by {
        assert(out.contains(out[i]));
    }
}

pub(crate) proof fn lemma_distinct_filter<T: HasId>(rows: Seq<T::V>, keep: spec_fn(T::V) -> bool)
    requires
        tables::distinct::<T>(rows),
    ensures
        tables::distinct::<T>(rows.filter(keep)),
{
    let out = rows.filter(keep);
    assert forall|i: int, j: int| 0 <= i < j < out.len() implies T::id_of(#[trigger] out[i])
        != T::id_of(#[trigger] out[j]) by {
        let (a, b) = signals::lemma_filter_order(rows, keep, i, j);
    }
}

pub(crate) proof fn lemma_has_row<T: HasId>(rows: Seq<T::V>, i: int)
    requires
        0 <= i < rows.len(),
    ensures
        tables::row_of::<T>(rows, T::id_of(rows[i])) is Some,
{
    tables::lemma_row_at::<T>(rows, T::id_of(rows[i]), rows.len());
}

/// A deleted block is gone with all its chunks, and the index stays
/// well-formed.
pub proof fn law_deleted_block_is_gone(db: ContentSpec, id: Id)
    requires
        db.well_formed(),
        db.has_block(id),
    ensures
        ({
            let after = blocks::without_block(db, id);
            &&& after.well_formed()
            &&& !after.has_block(id)
            &&& forall|i: int|
                0 <= i < after.chunks.len() ==> (#[trigger] after.chunks[i]).block_id != id
        }),
{
    let after = blocks::without_block(db, id);
    let at = tables::row_of::<Block>(db.blocks, id)->0;
    tables::lemma_row_at::<Block>(db.blocks, id, db.blocks.len());
    tables::lemma_row_at::<Block>(after.blocks, id, after.blocks.len());
    lemma_unowned::<Chunk>(db.chunks, seq![id]);
    lemma_distinct_filter::<Chunk>(
        db.chunks,
        |row: ChunkRow| !seq![id].contains(Chunk::owner_of(row)),
    );
    assert(seq![id][0] == id);
    assert forall|i: int| 0 <= i < after.blocks.len() implies Block::id_of(
        #[trigger] after.blocks[i],
    ) != id by {
        let j = if i < at {
            i
        } else {
            i + 1
        };
        assert(after.blocks[i] == db.blocks[j]);
        assert(Block::id_of(db.blocks[j]) != Block::id_of(db.blocks[at]));
    }
    assert forall|i: int| 0 <= i < after.chunks.len() implies after.has_block(
        (#[trigger] after.chunks[i]).block_id,
    ) by {
        let c = after.chunks[i];
        let x = choose|x: int| 0 <= x < db.chunks.len() && db.chunks[x] == c;
        assert(db.has_block(db.chunks[x].block_id));
        tables::lemma_row_at::<Block>(db.blocks, c.block_id, db.blocks.len());
        let j = tables::row_of::<Block>(db.blocks, c.block_id)->0;
        assert(c.block_id != id);
        assert(j != at);
        let k = if j < at {
            j
        } else {
            j - 1
        };
        assert(after.blocks[k] == db.blocks[j]);
        lemma_has_row::<Block>(after.blocks, k);
    }
    assert forall|i: int, j: int| 0 <= i < j < after.blocks.len() implies Block::id_of(
        #[trigger] after.blocks[i],
    ) != Block::id_of(#[trigger] after.blocks[j]) && (after.blocks[i].entry_id
        != after.blocks[j].entry_id || after.blocks[i].ordinal != after.blocks[j].ordinal) by {
        let a = if i < at {
            i
        } else {
            i + 1
        };
        let b = if j < at {
            j
        } else {
            j + 1
        };
        assert(after.blocks[i] == db.blocks[a] && after.blocks[j] == db.blocks[b]);
    }
    assert forall|i: int| 0 <= i < after.blocks.len() implies after.has_entry(
        (#[trigger] after.blocks[i]).entry_id,
    ) by {
        let j = if i < at {
            i
        } else {
            i + 1
        };
        assert(after.blocks[i] == db.blocks[j]);
        assert(db.has_entry(db.blocks[j].entry_id));
    }
    assert forall|i: int| 0 <= i < after.links.len() implies after.has_entry(
        (#[trigger] after.links[i]).source_id,
    ) && after.has_entry(after.links[i].target_id) by {
        assert(db.has_entry(db.links[i].source_id));
    }
}

/// A changed block reads back as the change gave it, and the index stays
/// well-formed.
pub proof fn law_changed_block_reads_back(
    db: ContentSpec,
    id: Id,
    c: BlockChange,
    chunk_ids: Seq<Id>,
    target: usize,
    now: Timestamp,
)
    requires
        db.well_formed(),
        blocks::change_fault(db, id, c, now) is None,
        c.text matches Some(t) ==> chunk_ids.len() >= blocks::chunk_count(t@, target),
        chunk_ids_fresh(db.chunks, chunk_ids),
    ensures
        ({
            let after = blocks::with_change(db, id, c, chunk_ids, target, now);
            let before = db.blocks[tables::row_of::<Block>(db.blocks, id)->0];
            &&& after.well_formed()
            &&& tables::row_of::<Block>(after.blocks, id) matches Some(i) && after.blocks[i]
                == blocks::changed(before, c, now)
        }),
{
    let after = blocks::with_change(db, id, c, chunk_ids, target, now);
    let at = tables::row_of::<Block>(db.blocks, id)->0;
    let row = blocks::changed(db.blocks[at], c, now);
    tables::lemma_row_at::<Block>(db.blocks, id, db.blocks.len());
    assert forall|other: Id| #[trigger] tables::row_of::<Block>(after.blocks, other)
        == tables::row_of::<Block>(db.blocks, other) by {
        lemma_same_ids::<Block>(db.blocks, after.blocks, other, db.blocks.len());
    }
    let kept = content::unowned::<Chunk>(db.chunks, seq![id]);
    let made = blocks::chunks_for(row, chunk_ids, target, now);
    lemma_unowned::<Chunk>(db.chunks, seq![id]);
    lemma_distinct_filter::<Chunk>(
        db.chunks,
        |row: ChunkRow| !seq![id].contains(Chunk::owner_of(row)),
    );
    assert forall|i: int| 0 <= i < after.chunks.len() implies after.has_block(
        (#[trigger] after.chunks[i]).block_id,
    ) by {
        let chunk = after.chunks[i];
        if row.text == db.blocks[at].text {
            assert(db.has_block(db.chunks[i].block_id));
        } else if i < kept.len() {
            assert(chunk == kept[i]);
            let x = choose|x: int| 0 <= x < db.chunks.len() && db.chunks[x] == chunk;
            assert(db.has_block(db.chunks[x].block_id));
        } else {
            assert(chunk == made[i - kept.len()]);
        }
    }
    assert forall|i: int, j: int| 0 <= i < j < after.chunks.len() implies Chunk::id_of(
        #[trigger] after.chunks[i],
    ) != Chunk::id_of(#[trigger] after.chunks[j]) by {
        if row.text != db.blocks[at].text {
            let n = kept.len() as int;
            if j < n {
                assert(after.chunks[i] == kept[i] && after.chunks[j] == kept[j]);
            } else {
                assert(after.chunks[j] == made[j - n]);
                assert(is_new::<Chunk>(db.chunks, chunk_ids[j - n]));
                if i < n {
                    assert(after.chunks[i] == kept[i]);
                    let x = choose|x: int| 0 <= x < db.chunks.len() && db.chunks[x] == kept[i];
                } else {
                    assert(after.chunks[i] == made[i - n]);
                    assert(chunk_ids[i - n] != chunk_ids[j - n]);
                }
            }
        }
    }
    assert forall|i: int| 0 <= i < after.blocks.len() implies after.has_entry(
        (#[trigger] after.blocks[i]).entry_id,
    ) by {
        assert(db.has_entry(db.blocks[i].entry_id));
    }
    assert forall|i: int, j: int| 0 <= i < j < after.blocks.len() implies Block::id_of(
        #[trigger] after.blocks[i],
    ) != Block::id_of(#[trigger] after.blocks[j]) && (after.blocks[i].entry_id
        != after.blocks[j].entry_id || after.blocks[i].ordinal != after.blocks[j].ordinal) by {
        assert(Block::id_of(db.blocks[i]) != Block::id_of(db.blocks[j]));
        assert(db.blocks[i].entry_id != db.blocks[j].entry_id || db.blocks[i].ordinal
            != db.blocks[j].ordinal);
    }
    assert forall|i: int| 0 <= i < after.links.len() implies after.has_entry(
        (#[trigger] after.links[i]).source_id,
    ) && after.has_entry(after.links[i].target_id) by {
        assert(db.has_entry(db.links[i].source_id));
    }
}

/// Identifiers are fit for blocks to create: no two are the same, and none is
/// in use.
pub open spec fn fresh_valid(db: ContentSpec, fresh: FreshIds, n: nat) -> bool {
    &&& fresh.blocks@.no_duplicates()
    &&& forall|i: int|
        0 <= i < fresh.blocks@.len() ==> is_new::<Block>(db.blocks, #[trigger] fresh.blocks@[i])
    &&& forall|i: int|
        0 <= i < n ==> chunk_ids_fresh(db.chunks, (#[trigger] fresh.chunks@[i])@)
    &&& forall|i: int, j: int, x: int, y: int|
        0 <= i < j < n && 0 <= x < fresh.chunks@[i]@.len() && 0 <= y < fresh.chunks@[j]@.len()
            ==> #[trigger] fresh.chunks@[i]@[x] != #[trigger] fresh.chunks@[j]@[y]
}

/// Blocks for an entry in order: one entry, ordinals from 0, attributes that
/// are objects, types that are known.
pub open spec fn in_sequence(inputs: Seq<CreateSpec>, id: Id) -> bool {
    forall|i: int|
        0 <= i < inputs.len() ==> (#[trigger] inputs[i]).entry_id == id && inputs[i].ordinal == i
            && inputs[i].attrs is Object && BlockType::named(inputs[i].type_) is Some
}

/// The rows of the first `n` blocks to create.
pub open spec fn rows_made(inputs: Seq<CreateSpec>, fresh: FreshIds, now: Timestamp, n: nat) -> Seq<
    BlockRow,
> {
    Seq::new(n, |i: int| blocks::new_block(inputs[i], fresh.blocks@[i], now))
}

pub(crate) proof fn lemma_inserted(
    db: ContentSpec,
    inputs: Seq<CreateSpec>,
    fresh: FreshIds,
    target: usize,
    now: Timestamp,
    id: Id,
    n: nat,
)
    requires
        n <= inputs.len(),
        inputs.len() <= u32::MAX,
        db.well_formed(),
        db.has_entry(id),
        forall|i: int| 0 <= i < db.blocks.len() ==> (#[trigger] db.blocks[i]).entry_id != id,
        in_sequence(inputs, id),
        entries::enough(fresh, inputs, target),
        fresh_valid(db, fresh, inputs.len()),
    ensures
        entries::inserted(db, inputs, fresh, target, now, n) matches Ok(r) && {
            &&& r.made == rows_made(inputs, fresh, now, n)
            &&& r.db.blocks == db.blocks + r.made
            &&& r.db.entries == db.entries
            &&& r.db.links == db.links
            &&& r.db.well_formed()
            &&& forall|k: int|
                n <= k < inputs.len() ==> chunk_ids_fresh(
                    r.db.chunks,
                    (#[trigger] fresh.chunks@[k])@,
                )
        },
    decreases n,
{
    if n == 0 {
        assert(rows_made(inputs, fresh, now, 0) =~= Seq::empty());
        assert(db.blocks + Seq::<BlockRow>::empty() =~= db.blocks);
    } else {
        let m = (n - 1) as nat;
        lemma_inserted(db, inputs, fresh, target, now, id, m);
        let before = entries::inserted(db, inputs, fresh, target, now, m)->Ok_0;
        let p = inputs[n - 1];
        let row = blocks::new_block(p, fresh.blocks@[n - 1], now);
        let ids = fresh.chunks@[n - 1]@;
        assert(p.entry_id == id && p.ordinal == n - 1);
        assert(before.db.has_entry(id));
        assert(!blocks::place_taken(before.db.blocks, id, p.ordinal)) by {
            assert forall|i: int| 0 <= i < before.db.blocks.len() implies !((
            #[trigger] before.db.blocks[i]).entry_id == id && before.db.blocks[i].ordinal
                == p.ordinal) by {
                if i < db.blocks.len() {
                    assert(before.db.blocks[i] == db.blocks[i]);
                } else {
                    let k = i - db.blocks.len();
                    assert(before.db.blocks[i] == before.made[k]);
                    assert(inputs[k].ordinal == k);
                }
            }
        }
        assert(is_new::<Block>(before.db.blocks, row.id)) by {
            assert forall|i: int| 0 <= i < before.db.blocks.len() implies Block::id_of(
                #[trigger] before.db.blocks[i],
            ) != row.id by {
                if i < db.blocks.len() {
                    assert(before.db.blocks[i] == db.blocks[i]);
                    assert(is_new::<Block>(db.blocks, fresh.blocks@[n - 1]));
                } else {
                    let k = i - db.blocks.len();
                    assert(before.db.blocks[i] == before.made[k]);
                    assert(fresh.blocks@[k] != fresh.blocks@[n - 1]);
                }
            }
        }
        assert(chunk_ids_fresh(before.db.chunks, ids));
        lemma_with_block(before.db, row, ids, target);
        let after = blocks::with_block(before.db, row, ids, target);
        let made = blocks::chunks_for(row, ids, target, row.created_at);
        assert(rows_made(inputs, fresh, now, n) =~= before.made.push(row));
        assert(after.blocks =~= db.blocks + before.made.push(row));
        assert forall|k: int| n <= k < inputs.len() implies chunk_ids_fresh(
            after.chunks,
            (#[trigger] fresh.chunks@[k])@,
        ) by {
            let others = fresh.chunks@[k]@;
            assert(chunk_ids_fresh(before.db.chunks, others));
            assert forall|x: int| 0 <= x < others.len() implies is_new::<Chunk>(
                after.chunks,
                #[trigger] others[x],
            ) by {
                assert(is_new::<Chunk>(before.db.chunks, others[x]));
                assert forall|i: int| 0 <= i < after.chunks.len() implies Chunk::id_of(
                    #[trigger] after.chunks[i],
                ) != others[x] by {
                    if i < before.db.chunks.len() {
                        assert(after.chunks[i] == before.db.chunks[i]);
                    } else {
                        let y = i - before.db.chunks.len();
                        assert(after.chunks[i] == made[y]);
                        assert(made[y].id == ids[y]);
                        assert(fresh.chunks@[n - 1]@[y] != fresh.chunks@[k]@[x]);
                    }
                }
            }
        }
    }
}

pub(crate) proof fn lemma_owned_rows(old_blocks: Seq<BlockRow>, made: Seq<BlockRow>, id: Id)
    requires
        forall|i: int| 0 <= i < old_blocks.len() ==> (#[trigger] old_blocks[i]).entry_id != id,
        forall|i: int|
            0 <= i < made.len() ==> (#[trigger] made[i]).entry_id == id && made[i].ordinal == i,
    ensures
        blocks::blocks_of(old_blocks + made, id) == made,
{
    let keep = content::belongs::<Block>(id);
    Seq::filter_distributes_over_add(old_blocks, made, keep);
    lemma_filter_none(old_blocks, keep);
    lemma_filter_every(made, keep);
    assert(Seq::<BlockRow>::empty() + made =~= made);
    assert(content::owned::<Block>(old_blocks + made, id) == made);
    ordering::law_ordered_rows_stay(made, block_model::by_ordinal());
}

pub(crate) proof fn lemma_filter_none<A>(s: Seq<A>, keep: spec_fn(A) -> bool)
    requires
        forall|i: int| 0 <= i < s.len() ==> !keep(#[trigger] s[i]),
    ensures
        s.filter(keep) == Seq::<A>::empty(),
    decreases s.len(),
{
    reveal(Seq::filter);
    if s.len() > 0 {
        let head = s.drop_last();
        assert forall|i: int| 0 <= i < head.len() implies !keep(#[trigger] head[i]) by {
            assert(head[i] == s[i]);
        }
        lemma_filter_none(head, keep);
        assert(!keep(s[s.len() - 1]));
    }
}

pub(crate) proof fn lemma_filter_every<A>(s: Seq<A>, keep: spec_fn(A) -> bool)
    requires
        forall|i: int| 0 <= i < s.len() ==> keep(#[trigger] s[i]),
    ensures
        s.filter(keep) == s,
    decreases s.len(),
{
    reveal(Seq::filter);
    if s.len() > 0 {
        let head = s.drop_last();
        assert forall|i: int| 0 <= i < head.len() implies keep(#[trigger] head[i]) by {
            assert(head[i] == s[i]);
        }
        lemma_filter_every(head, keep);
        assert(keep(s[s.len() - 1]));
        assert(head.push(s.last()) =~= s);
    } else {
        assert(s.filter(keep) =~= s);
    }
}

pub(crate) proof fn lemma_with_entry(db: ContentSpec, row: EntryRowSpec)
    requires
        db.well_formed(),
        is_new::<EntryRow>(db.entries, row.id),
    ensures
        entries::with_entry(db, row).well_formed(),
        entries::with_entry(db, row).has_entry(row.id),
        forall|i: int| 0 <= i < db.blocks.len() ==> (#[trigger] db.blocks[i]).entry_id != row.id,
{
    let after = entries::with_entry(db, row);
    lemma_pushed::<EntryRow>(db.entries, row);
    assert forall|i: int| 0 <= i < db.blocks.len() implies (#[trigger] db.blocks[i]).entry_id
        != row.id && after.has_entry(db.blocks[i].entry_id) by {
        assert(db.has_entry(db.blocks[i].entry_id));
        tables::lemma_row_at::<EntryRow>(db.entries, row.id, db.entries.len());
    }
    assert forall|i: int| 0 <= i < after.links.len() implies after.has_entry(
        (#[trigger] after.links[i]).source_id,
    ) && after.has_entry(after.links[i].target_id) by {
        assert(db.has_entry(db.links[i].source_id) && db.has_entry(db.links[i].target_id));
        tables::lemma_row_at::<EntryRow>(db.entries, row.id, db.entries.len());
    }
    assert forall|i: int| 0 <= i < after.chunks.len() implies after.has_block(
        (#[trigger] after.chunks[i]).block_id,
    ) by {
        assert(db.has_block(db.chunks[i].block_id));
    }
}

pub(crate) proof fn lemma_known_types(blocks: Seq<BlockInput>, n: nat, i: int)
    requires
        0 <= i < n <= blocks.len(),
        entries::unknown_type(blocks, n) is None,
    ensures
        BlockType::named(blocks[i].type_@) is Some,
    decreases n,
{
    if i < n - 1 {
        lemma_known_types(blocks, (n - 1) as nat, i);
    }
}

/// Creating an entry whose block attributes are objects succeeds; what was
/// written reads back, blocks in order; and the index stays well-formed.
pub proof fn law_created_entry_reads_back(
    db: ContentSpec,
    p: CreateEntry,
    id: Id,
    mtime: Seq<char>,
    fresh: FreshIds,
    target: usize,
    now: Timestamp,
)
    requires
        db.well_formed(),
        is_new::<EntryRow>(db.entries, id),
        entries::create_fault(p) is None,
        p.blocks@.len() <= u32::MAX,
        forall|i: int|
            0 <= i < p.blocks@.len() ==> attrs::given((#[trigger] p.blocks@[i]).attrs) is Object,
        entries::enough(fresh, entries::blocks_at(p.blocks@, id), target),
        fresh_valid(db, fresh, p.blocks@.len()),
    ensures
        ({
            let row = entries::new_row(p, id, mtime, now);
            let made = entries::inserted(
                entries::with_entry(db, row),
                entries::blocks_at(p.blocks@, id),
                fresh,
                target,
                now,
                p.blocks@.len(),
            );
            &&& made is Ok
            &&& made->Ok_0.db.well_formed()
            &&& made->Ok_0.db.has_entry(id)
            &&& entries::entry_of(made->Ok_0.db, id) == row.with_blocks(made->Ok_0.made)
            &&& made->Ok_0.made == rows_made(
                entries::blocks_at(p.blocks@, id),
                fresh,
                now,
                p.blocks@.len(),
            )
        }),
{
    let row = entries::new_row(p, id, mtime, now);
    let inputs = entries::blocks_at(p.blocks@, id);
    let start = entries::with_entry(db, row);
    lemma_with_entry(db, row);
    assert forall|i: int| 0 <= i < inputs.len() implies (#[trigger] inputs[i]).entry_id == id
        && inputs[i].ordinal == i && inputs[i].attrs is Object && BlockType::named(
        inputs[i].type_,
    ) is Some by {
        assert(attrs::given(p.blocks@[i].attrs) is Object);
        lemma_known_types(p.blocks@, p.blocks@.len(), i);
    }
    lemma_inserted(start, inputs, fresh, target, now, id, inputs.len());
    let made = entries::inserted(start, inputs, fresh, target, now, inputs.len())->Ok_0;
    assert forall|i: int| 0 <= i < made.made.len() implies (#[trigger] made.made[i]).entry_id == id
        && made.made[i].ordinal == i by {
        assert(inputs[i].entry_id == id && inputs[i].ordinal == i);
    }
    lemma_owned_rows(db.blocks, made.made, id);
    lemma_pushed::<EntryRow>(db.entries, row);
}

/// An updated entry reads back as the update gave it, and the index stays
/// well-formed.
pub proof fn law_updated_entry_reads_back(db: ContentSpec, id: Id, p: UpdateEntry, now: Timestamp)
    requires
        db.well_formed(),
        entries::update_fault(db, id, p) is None,
    ensures
        ({
            let after = entries::with_update(db, id, p, now);
            let i = tables::row_of::<EntryRow>(db.entries, id)->0;
            &&& after.well_formed()
            &&& entries::entry_of(after, id) == entries::changed(db.entries[i], p, now).with_blocks(
                blocks::blocks_of(db.blocks, id),
            )
        }),
{
    let after = entries::with_update(db, id, p, now);
    let at = tables::row_of::<EntryRow>(db.entries, id)->0;
    tables::lemma_row_at::<EntryRow>(db.entries, id, db.entries.len());
    assert forall|other: Id| #[trigger] tables::row_of::<EntryRow>(after.entries, other)
        == tables::row_of::<EntryRow>(db.entries, other) by {
        lemma_same_ids::<EntryRow>(db.entries, after.entries, other, db.entries.len());
    }
    assert forall|i: int| 0 <= i < after.blocks.len() implies after.has_entry(
        (#[trigger] after.blocks[i]).entry_id,
    ) by {
        assert(db.has_entry(db.blocks[i].entry_id));
    }
    assert forall|i: int| 0 <= i < after.links.len() implies after.has_entry(
        (#[trigger] after.links[i]).source_id,
    ) && after.has_entry(after.links[i].target_id) by {
        assert(db.has_entry(db.links[i].source_id) && db.has_entry(db.links[i].target_id));
    }
    assert forall|i: int| 0 <= i < after.chunks.len() implies after.has_block(
        (#[trigger] after.chunks[i]).block_id,
    ) by {
        assert(db.has_block(db.chunks[i].block_id));
    }
    assert forall|i: int, j: int| 0 <= i < j < after.entries.len() implies EntryRow::id_of(
        #[trigger] after.entries[i],
    ) != EntryRow::id_of(#[trigger] after.entries[j]) by {
        assert(EntryRow::id_of(db.entries[i]) != EntryRow::id_of(db.entries[j]));
    }
}

pub(crate) proof fn lemma_same_ids<T: HasId>(a: Seq<T::V>, b: Seq<T::V>, id: Id, n: nat)
    requires
        a.len() == b.len(),
        n <= a.len(),
        forall|i: int| 0 <= i < a.len() ==> T::id_of(#[trigger] a[i]) == T::id_of(b[i]),
    ensures
        tables::row_at::<T>(a, id, n) == tables::row_at::<T>(b, id, n),
    decreases n,
{
    if n > 0 {
        lemma_same_ids::<T>(a, b, id, (n - 1) as nat);
        assert(T::id_of(a[n - 1]) == T::id_of(b[n - 1]));
    }
}

proof fn lemma_block_ids(rows: Seq<BlockRow>, entry: Id, n: nat)
    requires
        n <= rows.len(),
    ensures
        forall|i: int|
            0 <= i < n && (#[trigger] rows[i]).entry_id == entry ==> entries::block_ids(
                rows,
                entry,
                n,
            ).contains(rows[i].id),
    decreases n,
{
    if n > 0 {
        lemma_block_ids(rows, entry, (n - 1) as nat);
        let before = entries::block_ids(rows, entry, (n - 1) as nat);
        let out = entries::block_ids(rows, entry, n);
        assert forall|i: int| 0 <= i < n && (#[trigger] rows[i]).entry_id == entry implies
            out.contains(rows[i].id) by {
            if i < n - 1 {
                assert(before.contains(rows[i].id));
                let k = choose|k: int| 0 <= k < before.len() && before[k] == rows[i].id;
                assert(out[k] == rows[i].id);
            } else {
                assert(out[out.len() - 1] == rows[i].id);
            }
        }
    }
}

/// A deleted entry is gone with its blocks, their chunks, and every link to or
/// from it, and the index stays well-formed.
pub proof fn law_deleted_entry_is_gone(db: ContentSpec, id: Id)
    requires
        db.well_formed(),
        db.has_entry(id),
    ensures
        ({
            let after = entries::without_entry(db, id);
            &&& after.well_formed()
            &&& !after.has_entry(id)
            &&& forall|i: int|
                0 <= i < after.blocks.len() ==> (#[trigger] after.blocks[i]).entry_id != id
            &&& forall|i: int|
                0 <= i < after.links.len() ==> (#[trigger] after.links[i]).source_id != id
                    && after.links[i].target_id != id
            &&& forall|i: int|
                0 <= i < after.chunks.len() ==> after.has_block(
                    (#[trigger] after.chunks[i]).block_id,
                )
        }),
{
    let after = entries::without_entry(db, id);
    let at = tables::row_of::<EntryRow>(db.entries, id)->0;
    let gone = entries::block_ids(db.blocks, id, db.blocks.len());
    tables::lemma_row_at::<EntryRow>(db.entries, id, db.entries.len());
    tables::lemma_row_at::<EntryRow>(after.entries, id, after.entries.len());
    assert forall|i: int| 0 <= i < after.entries.len() implies EntryRow::id_of(
        #[trigger] after.entries[i],
    ) != id by {
        let j = if i < at {
            i
        } else {
            i + 1
        };
        assert(after.entries[i] == db.entries[j]);
        assert(EntryRow::id_of(db.entries[j]) != EntryRow::id_of(db.entries[at]));
    }
    lemma_unowned::<Block>(db.blocks, seq![id]);
    lemma_unowned::<Chunk>(db.chunks, gone);
    lemma_block_ids(db.blocks, id, db.blocks.len());
    assert(seq![id][0] == id);
    signals::lemma_filter_rows(db.links, entries::elsewhere(id));
    lemma_distinct_filter::<Block>(
        db.blocks,
        |row: BlockRow| !seq![id].contains(Block::owner_of(row)),
    );
    lemma_distinct_filter::<Chunk>(
        db.chunks,
        |row: ChunkRow| !gone.contains(Chunk::owner_of(row)),
    );
    lemma_distinct_filter::<Link>(db.links, entries::elsewhere(id));
    let keep_block = |row: BlockRow| !seq![id].contains(Block::owner_of(row));
    signals::lemma_filter_rows(db.blocks, keep_block);
    assert forall|entry: Id| entry != id && db.has_entry(entry) implies #[trigger] after.has_entry(
        entry,
    ) by {
        tables::lemma_row_at::<EntryRow>(db.entries, entry, db.entries.len());
        let j = tables::row_of::<EntryRow>(db.entries, entry)->0;
        let k = if j < at {
            j
        } else {
            j - 1
        };
        assert(after.entries[k] == db.entries[j]);
        lemma_has_row::<EntryRow>(after.entries, k);
    }
    assert forall|i: int| 0 <= i < after.blocks.len() implies (
    #[trigger] after.blocks[i]).entry_id != id && after.has_entry(after.blocks[i].entry_id) by {
        let b = after.blocks[i];
        let x = choose|x: int| 0 <= x < db.blocks.len() && db.blocks[x] == b;
        assert(db.has_entry(db.blocks[x].entry_id));
    }
    assert forall|i: int| 0 <= i < after.links.len() implies (
    #[trigger] after.links[i]).source_id != id && after.links[i].target_id != id
        && after.has_entry(after.links[i].source_id) && after.has_entry(
        after.links[i].target_id,
    ) by {
        let l = after.links[i];
        assert(after.links.contains(l));
        let x = choose|x: int| 0 <= x < db.links.len() && db.links[x] == l;
        assert(db.has_entry(db.links[x].source_id) && db.has_entry(db.links[x].target_id));
    }
    assert forall|i: int| 0 <= i < after.chunks.len() implies after.has_block(
        (#[trigger] after.chunks[i]).block_id,
    ) by {
        let c = after.chunks[i];
        let x = choose|x: int| 0 <= x < db.chunks.len() && db.chunks[x] == c;
        assert(db.has_block(db.chunks[x].block_id));
        tables::lemma_row_at::<Block>(db.blocks, c.block_id, db.blocks.len());
        let j = tables::row_of::<Block>(db.blocks, c.block_id)->0;
        assert(db.blocks[j].entry_id != id);
        assert(db.blocks.contains(db.blocks[j]));
        assert(keep_block(db.blocks[j]));
        assert(after.blocks.contains(db.blocks[j]));
        let k = choose|k: int| 0 <= k < after.blocks.len() && after.blocks[k] == db.blocks[j];
        lemma_has_row::<Block>(after.blocks, k);
    }
    assert forall|i: int, j: int| 0 <= i < j < after.blocks.len() implies (
    #[trigger] after.blocks[i]).entry_id != (#[trigger] after.blocks[j]).entry_id
        || after.blocks[i].ordinal != after.blocks[j].ordinal by {
        let (a, b) = signals::lemma_filter_order(db.blocks, keep_block, i, j);
    }
    assert forall|i: int, j: int| 0 <= i < j < after.links.len() implies !content::same_edge(
        #[trigger] after.links[i],
        #[trigger] after.links[j],
    ) by {
        let (a, b) = signals::lemma_filter_order(db.links, entries::elsewhere(id), i, j);
    }
    assert forall|i: int, j: int| 0 <= i < j < after.entries.len() implies EntryRow::id_of(
        #[trigger] after.entries[i],
    ) != EntryRow::id_of(#[trigger] after.entries[j]) by {
        let a = if i < at {
            i
        } else {
            i + 1
        };
        let b = if j < at {
            j
        } else {
            j + 1
        };
        assert(after.entries[i] == db.entries[a] && after.entries[j] == db.entries[b]);
    }
}

} // verus!
