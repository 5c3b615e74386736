//! What an entry's file says of it: the file is what the index is built from.
use vstd::prelude::*;

use crate::attrs::{self, AttrsSpec};
use crate::block_model::{Block, BlockInput, BlockRow, CreateSpec};
use crate::blocks;
use crate::chunk_model::{Chunk, ChunkRow};
use crate::content::{ContentSpec, Owned};
use crate::content_laws;
use crate::entries::{self, FreshIds};
use crate::entry_model::CreateEntry;
use crate::format_laws;
use crate::ids::Id;
use crate::model::{EntryRow, EntryRowSpec};
use crate::nomai_format::{self, BlockType, DocSpec};
use crate::signals;
use crate::tables::{self, HasId};
use crate::time::Timestamp;

verus! {

proof fn lemma_new_stays<T: HasId>(rows: Seq<T::V>, keep: spec_fn(T::V) -> bool, id: Id)
    requires
        content_laws::is_new::<T>(rows, id),
    ensures
        content_laws::is_new::<T>(rows.filter(keep), id),
{
    let out = rows.filter(keep);
    signals::lemma_filter_rows(rows, keep);
    assert forall|i: int| 0 <= i < out.len() implies T::id_of(#[trigger] out[i]) != id by {
        assert(out.contains(out[i]));
        let x = choose|x: int| 0 <= x < rows.len() && rows[x] == out[i];
        assert(T::id_of(rows[x]) != id);
    }
}

proof fn lemma_fresh_stays(db: ContentSpec, id: Id, fresh: FreshIds, n: nat)
    requires
        content_laws::fresh_valid(db, fresh, n),
    ensures
        content_laws::fresh_valid(entries::without_entry(db, id), fresh, n),
{
    let after = entries::without_entry(db, id);
    if db.has_entry(id) {
        let gone = entries::block_ids(db.blocks, id, db.blocks.len());
        let keep_block = |row: BlockRow| !seq![id].contains(Block::owner_of(row));
        let keep_chunk = |row: ChunkRow| !gone.contains(Chunk::owner_of(row));
        assert forall|i: int| 0 <= i < fresh.blocks@.len() implies content_laws::is_new::<Block>(
            after.blocks,
            #[trigger] fresh.blocks@[i],
        ) by {
            lemma_new_stays::<Block>(db.blocks, keep_block, fresh.blocks@[i]);
        }
        assert forall|i: int| 0 <= i < n implies content_laws::chunk_ids_fresh(
            after.chunks,
            (#[trigger] fresh.chunks@[i])@,
        ) by {
            let ids = fresh.chunks@[i]@;
            assert forall|k: int| 0 <= k < ids.len() implies content_laws::is_new::<Chunk>(
                after.chunks,
                #[trigger] ids[k],
            ) by {
                lemma_new_stays::<Chunk>(db.chunks, keep_chunk, ids[k]);
            }
        }
    }
}

/// An entry that was read anew is what its file says, whatever the index held
/// of it before; and the index stays well-formed.
pub proof fn law_reindexed_entry_is_its_file(
    db: ContentSpec,
    doc: DocSpec,
    id: Id,
    mtime: Seq<char>,
    fresh: FreshIds,
    target: usize,
    now: Timestamp,
)
    requires
        db.well_formed(),
        doc.blocks.len() <= u32::MAX,
        entries::enough(fresh, entries::blocks_of_doc(doc, id), target),
        content_laws::fresh_valid(db, fresh, doc.blocks.len()),
    ensures
        ({
            let made = entries::reindexed(db, doc, id, mtime, fresh, target, now);
            let rows = content_laws::rows_made(
                entries::blocks_of_doc(doc, id),
                fresh,
                now,
                doc.blocks.len(),
            );
            &&& made is Ok
            &&& made->Ok_0.db.well_formed()
            &&& made->Ok_0.db.has_entry(id)
            &&& entries::entry_of(made->Ok_0.db, id) == entries::row_of_doc(
                doc,
                id,
                mtime,
            ).with_blocks(rows)
        }),
{
    let cleared = entries::without_entry(db, id);
    let row = entries::row_of_doc(doc, id, mtime);
    let start = entries::with_entry(cleared, row);
    let inputs = entries::blocks_of_doc(doc, id);
    if db.has_entry(id) {
        content_laws::law_deleted_entry_is_gone(db, id);
    }
    lemma_fresh_stays(db, id, fresh, doc.blocks.len());
    tables::lemma_row_at::<EntryRow>(cleared.entries, id, cleared.entries.len());
    content_laws::lemma_with_entry(cleared, row);
    assert forall|i: int| 0 <= i < inputs.len() implies (#[trigger] inputs[i]).entry_id == id
        && inputs[i].ordinal == i && inputs[i].attrs is Object && BlockType::named(
        inputs[i].type_,
    ) is Some by {
        let ty = doc.blocks[i].type_;
        nomai_format::law_block_type_round_trip(ty, ty.name());
    }
    content_laws::lemma_inserted(start, inputs, fresh, target, now, id, inputs.len());
    let made = entries::inserted(start, inputs, fresh, target, now, inputs.len())->Ok_0;
    assert forall|i: int| 0 <= i < made.made.len() implies (#[trigger] made.made[i]).entry_id == id
        && made.made[i].ordinal == i by {
        assert(inputs[i].entry_id == id && inputs[i].ordinal == i);
    }
    content_laws::lemma_owned_rows(cleared.blocks, made.made, id);
    content_laws::lemma_pushed::<EntryRow>(cleared.entries, row);
}

/// The block that comes back of one that was written to a file: its text
/// without the line breaks at its end, its attributes as strings.
pub open spec fn restored(b: BlockInput, id: Id, ordinal: u32) -> CreateSpec {
    CreateSpec {
        entry_id: id,
        ordinal,
        type_: b.type_@,
        text: entries::trimmed(b.text@),
        attrs: AttrsSpec::Object(format_laws::as_strings(attrs::given(b.attrs).members())),
    }
}

/// The file of a created entry holds what was asked for: read anew, it gives
/// the title, the tags, the source and the times, and each block in its place.
pub proof fn law_file_of_created_entry_restores_it(
    p: CreateEntry,
    id: Id,
    mtime: Seq<char>,
    now: Timestamp,
)
    requires
        entries::create_fault(p) is None,
        p.blocks@.len() <= u32::MAX,
    ensures
        ({
            let doc = format_laws::doc_as_strings(entries::new_doc(p, id, now));
            let row = entries::row_of_doc(doc, id, mtime);
            let asked = entries::new_row(p, id, mtime, now);
            let blocks = entries::blocks_of_doc(doc, id);
            &&& row == (EntryRowSpec {
                attrs: AttrsSpec::Object(format_laws::as_strings(asked.attrs.members())),
                ..asked
            })
            &&& blocks == Seq::new(
                p.blocks@.len(),
                |i: int| restored(p.blocks@[i], id, i as u32),
            )
        }),
{
    let doc = format_laws::doc_as_strings(entries::new_doc(p, id, now));
    let blocks = entries::blocks_of_doc(doc, id);
    let wanted = Seq::new(p.blocks@.len(), |i: int| restored(p.blocks@[i], id, i as u32));
    assert forall|i: int| 0 <= i < blocks.len() implies blocks[i] == wanted[i] by {
        let b = p.blocks@[i];
        content_laws::lemma_known_types(p.blocks@, p.blocks@.len(), i);
        nomai_format::law_block_type_round_trip(BlockType::named(b.type_@)->0, b.type_@);
        reveal_strlit("\n");
        let written = b.text@ + "\n"@;
        assert(written.drop_last() =~= b.text@);
        assert(entries::trimmed(written) == entries::trimmed(b.text@));
    }
    assert(blocks =~= wanted);
}

} // verus!
