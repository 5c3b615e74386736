//! What creating, changing and deleting entries and blocks does, and what it
//! leaves alone.
use vstd::prelude::*;
use vstd::string::*;

use crate::attrs::{self, AttrSpec};
use crate::block_model::{Block, BlockInput, BlockRow, CreateSpec};
use crate::blocks::{self, BlockChange};
use crate::chunk_model::{Chunk, ChunkRow};
use crate::chunking;
use crate::content::{ContentSpec, Owned};
use crate::entries;
use crate::entry_model::{CreateEntry, UpdateEntry};
use crate::error::CoreFault;
use crate::ids::{self, Id};
use crate::link_model::LinkRow;
use crate::model::EntryRow;
use crate::nomai_format::{BlockType, DocSpec};
use crate::search_laws::{is_block, is_entry};
use crate::tables::{self, HasId};
use crate::text;
use crate::time::Timestamp;

verus! {

/// A new block is what was given, created and updated then; it is put behind
/// all others, and nothing else in the index changes but for its chunks, which
/// follow all others.
pub proof fn law_new_block_is_what_was_given(
    db: ContentSpec,
    p: CreateSpec,
    id: Id,
    chunk_ids: Seq<Id>,
    target: usize,
    now: Timestamp,
)
    ensures
        ({
            let b = blocks::new_block(p, id, now);
            let after = blocks::with_block(db, b, chunk_ids, target);
            &&& b.id == id
            &&& b.entry_id == p.entry_id
            &&& b.ordinal == p.ordinal
            &&& b.type_ == p.type_
            &&& b.text == p.text
            &&& b.attrs == p.attrs
            &&& b.created_at == now
            &&& b.updated_at == now
            &&& after.blocks == db.blocks.push(b)
            &&& after.entries == db.entries
            &&& after.links == db.links
            &&& db.chunks.is_prefix_of(after.chunks)
            &&& are_chunks_of(after.chunks.skip(db.chunks.len() as int), b, chunk_ids, target, now)
        }),
{
    let b = blocks::new_block(p, id, now);
    let after = blocks::with_block(db, b, chunk_ids, target);
    law_chunks_stand_for_the_block(b, chunk_ids, target, now);
    assert(after.chunks.skip(db.chunks.len() as int) =~= blocks::chunks_for(
        b,
        chunk_ids,
        target,
        now,
    ));
}

/// `made` are the chunks of a block: its text in pieces, in order, each with
/// the block's attributes and its type.
pub open spec fn are_chunks_of(
    made: Seq<ChunkRow>,
    block: BlockRow,
    ids: Seq<Id>,
    target: usize,
    now: Timestamp,
) -> bool {
    let pieces = chunking::chunks_of(block.text, target as nat);
    &&& made.len() == pieces.len()
    &&& forall|i: int|
        0 <= i < made.len() ==> {
            let c = #[trigger] made[i];
            &&& c.id == ids[i]
            &&& c.block_id == block.id
            &&& c.text == pieces[i]
            &&& i <= u32::MAX ==> c.ordinal == i
            &&& c.created_at == now
            &&& c.updated_at == now
            &&& c.attrs is Object
            &&& attrs::value_of(c.attrs->Object_0, "parent_block_type"@) == Some(
                AttrSpec::Text(block.type_),
            )
            &&& forall|key: Seq<char>|
                key != "parent_block_type"@ && block.attrs is Object ==> #[trigger] attrs::value_of(
                    c.attrs->Object_0,
                    key,
                ) == attrs::value_of(block.attrs->Object_0, key)
        }
}

/// The chunks of a block stand for it: its text in pieces, in order, each with
/// the block's attributes and its type.
pub proof fn law_chunks_stand_for_the_block(
    block: BlockRow,
    ids: Seq<Id>,
    target: usize,
    now: Timestamp,
)
    ensures
        are_chunks_of(blocks::chunks_for(block, ids, target, now), block, ids, target, now),
{
    attrs::law_set_then_get(
        block.attrs.members(),
        "parent_block_type"@,
        AttrSpec::Text(block.type_),
    );
}

proof fn lemma_place(db: ContentSpec, entry: Id, e: int)
    ensures
        db.has_entry(entry) <==> exists|i: int|
            0 <= i < db.entries.len() && (#[trigger] db.entries[i]).id == entry,
        is_entry(db, entry, e) ==> tables::row_of::<EntryRow>(db.entries, entry) == Some(e),
{
    tables::lemma_row_at::<EntryRow>(db.entries, entry, db.entries.len());
    if let Some(i) = tables::row_of::<EntryRow>(db.entries, entry) {
        assert(db.entries[i].id == entry);
        if is_entry(db, entry, e) && i < e {
            assert(db.entries[i].id != entry);
        } else if is_entry(db, entry, e) && e < i {
            assert(EntryRow::id_of(db.entries[e]) != entry);
        }
    } else {
        assert forall|j: int| 0 <= j < db.entries.len() implies (#[trigger] db.entries[j]).id
            != entry by {
            assert(EntryRow::id_of(db.entries[j]) != entry);
        }
    }
}

proof fn lemma_block_place(db: ContentSpec, id: Id, b: int)
    ensures
        is_block(db, id, b) ==> tables::row_of::<Block>(db.blocks, id) == Some(b),
{
    tables::lemma_row_at::<Block>(db.blocks, id, db.blocks.len());
    if is_block(db, id, b) {
        assert(Block::id_of(db.blocks[b]) == id);
        if let Some(i) = tables::row_of::<Block>(db.blocks, id) {
            if i < b {
                assert(db.blocks[i].id != id);
            } else if b < i {
                assert(Block::id_of(db.blocks[b]) != id);
            }
        }
    }
}

/// A block is refused where its attributes are no object, its type is not
/// known, its entry does not exist or its place is taken; and only then.
pub proof fn law_why_a_block_is_refused(db: ContentSpec, p: CreateSpec)
    ensures
        blocks::create_fault(db, p) is None <==> {
            &&& p.attrs is Object
            &&& BlockType::named(p.type_) is Some
            &&& exists|i: int|
                0 <= i < db.entries.len() && (#[trigger] db.entries[i]).id == p.entry_id
            &&& forall|i: int|
                #![trigger db.blocks[i]]
                0 <= i < db.blocks.len() ==> db.blocks[i].entry_id != p.entry_id
                    || db.blocks[i].ordinal != p.ordinal
        },
{
    lemma_place(db, p.entry_id, 0);
}

proof fn lemma_max_ordinal(blocks: Seq<BlockRow>, entry: Id, n: nat)
    requires
        n <= blocks.len(),
    ensures
        match blocks::max_ordinal(blocks, entry, n) {
            Some(m) => (forall|i: int|
                0 <= i < n && (#[trigger] blocks[i]).entry_id == entry ==> blocks[i].ordinal <= m)
                && exists|i: int|
                0 <= i < n && (#[trigger] blocks[i]).entry_id == entry && blocks[i].ordinal == m,
            None => forall|i: int| 0 <= i < n ==> (#[trigger] blocks[i]).entry_id != entry,
        },
    decreases n,
{
    if n > 0 {
        lemma_max_ordinal(blocks, entry, (n - 1) as nat);
        if let Some(m) = blocks::max_ordinal(blocks, entry, (n - 1) as nat) {
            let i = choose|i: int|
                0 <= i < n - 1 && (#[trigger] blocks[i]).entry_id == entry && blocks[i].ordinal
                    == m;
            assert(blocks[i].ordinal == m);
        }
        if blocks[n - 1].entry_id == entry {
            assert(blocks[n - 1].entry_id == entry);
        }
    }
}

/// A block that is appended follows the last of its entry directly; the first
/// of all gets 0.
pub proof fn law_appended_block_follows_the_last(
    db: ContentSpec,
    entry: Id,
    type_: Seq<char>,
    text: Seq<char>,
    attrs: crate::attrs::AttrsSpec,
)
    ensures
        ({
            let p = blocks::appended(db, entry, type_, text, attrs);
            &&& p.entry_id == entry
            &&& p.type_ == type_
            &&& p.text == text
            &&& p.attrs == attrs
            &&& (forall|i: int|
                0 <= i < db.blocks.len() && (#[trigger] db.blocks[i]).entry_id == entry
                    ==> db.blocks[i].ordinal < u32::MAX) ==> {
                &&& forall|i: int|
                    0 <= i < db.blocks.len() && (#[trigger] db.blocks[i]).entry_id == entry
                        ==> db.blocks[i].ordinal < p.ordinal
                &&& p.ordinal == 0 || exists|i: int|
                    0 <= i < db.blocks.len() && (#[trigger] db.blocks[i]).entry_id == entry
                        && db.blocks[i].ordinal == p.ordinal - 1
            }
        }),
{
    lemma_max_ordinal(db.blocks, entry, db.blocks.len());
}

/// A block's change sets what was given and leaves the rest; other blocks,
/// entries and links stay. Its chunks stay where its text does, and are made
/// anew where the text is another; those of other blocks stay.
pub proof fn law_block_change_sets_what_was_given(
    db: ContentSpec,
    id: Id,
    c: BlockChange,
    chunk_ids: Seq<Id>,
    target: usize,
    now: Timestamp,
    b: int,
)
    requires
        is_block(db, id, b),
    ensures
        ({
            let old = db.blocks[b];
            let after = blocks::with_change(db, id, c, chunk_ids, target, now);
            let new = after.blocks[b];
            &&& after.blocks.len() == db.blocks.len()
            &&& forall|i: int|
                0 <= i < db.blocks.len() && i != b ==> #[trigger] after.blocks[i] == db.blocks[i]
            &&& after.entries == db.entries
            &&& after.links == db.links
            &&& new.id == old.id
            &&& new.entry_id == old.entry_id
            &&& new.ordinal == old.ordinal
            &&& new.created_at == old.created_at
            &&& new.updated_at == now
            &&& new.type_ == if c.type_ is Some {
                c.type_->0@
            } else {
                old.type_
            }
            &&& new.text == if c.text is Some {
                c.text->0@
            } else {
                old.text
            }
            &&& new.attrs == if c.attrs is Some {
                c.attrs->0@
            } else {
                old.attrs
            }
            &&& new.text == old.text ==> after.chunks == db.chunks
            &&& new.text != old.text ==> {
                let kept = db.chunks.filter(|k: ChunkRow| k.block_id != id);
                &&& kept.is_prefix_of(after.chunks)
                &&& are_chunks_of(after.chunks.skip(kept.len() as int), new, chunk_ids, target, now)
            }
            &&& blocks::change_fault(db, id, c, now) is None <==> (new.attrs is Object && (
            c.type_ is Some ==> BlockType::named(c.type_->0@) is Some))
        }),
{
    lemma_block_place(db, id, b);
    let after = blocks::with_change(db, id, c, chunk_ids, target, now);
    let new = after.blocks[b];
    let keep = |k: ChunkRow| !seq![id].contains(Chunk::owner_of(k));
    let other = |k: ChunkRow| k.block_id != id;
    lemma_not_owned(id);
    assert(keep =~= other) by {
        assert forall|k: ChunkRow| #[trigger] keep(k) == other(k) by {
            assert(Chunk::owner_of(k) == k.block_id);
            assert(seq![id].contains(k.block_id) <==> k.block_id == id);
        }
    }
    law_chunks_stand_for_the_block(new, chunk_ids, target, now);
    if new.text != db.blocks[b].text {
        let kept = db.chunks.filter(other);
        assert(after.chunks.skip(kept.len() as int) =~= blocks::chunks_for(
            new,
            chunk_ids,
            target,
            now,
        ));
    }
}

proof fn lemma_not_owned(id: Id)
    ensures
        forall|x: Id| #[trigger] seq![id].contains(x) <==> x == id,
{
    assert forall|x: Id| #[trigger] seq![id].contains(x) <==> x == id by {
        assert(seq![id][0] == id);
    }
}

/// Deleting a block takes it and its chunks, and nothing else.
pub proof fn law_deleting_a_block_takes_nothing_else(db: ContentSpec, id: Id, b: int)
    requires
        is_block(db, id, b),
    ensures
        ({
            let after = blocks::without_block(db, id);
            &&& after.blocks == db.blocks.remove(b)
            &&& after.chunks == db.chunks.filter(|k: ChunkRow| k.block_id != id)
            &&& after.entries == db.entries
            &&& after.links == db.links
        }),
{
    lemma_block_place(db, id, b);
    lemma_not_owned(id);
    let keep = |k: ChunkRow| !seq![id].contains(Chunk::owner_of(k));
    let other = |k: ChunkRow| k.block_id != id;
    assert(keep =~= other) by {
        assert forall|k: ChunkRow| #[trigger] keep(k) == other(k) by {
            assert(Chunk::owner_of(k) == k.block_id);
            assert(seq![id].contains(k.block_id) <==> k.block_id == id);
        }
    }
}

proof fn lemma_block_ids(blocks: Seq<BlockRow>, entry: Id, n: nat, id: Id)
    requires
        n <= blocks.len(),
    ensures
        entries::block_ids(blocks, entry, n).contains(id) <==> exists|i: int|
            0 <= i < n && (#[trigger] blocks[i]).entry_id == entry && blocks[i].id == id,
    decreases n,
{
    if n > 0 {
        lemma_block_ids(blocks, entry, (n - 1) as nat, id);
        let before = entries::block_ids(blocks, entry, (n - 1) as nat);
        let out = entries::block_ids(blocks, entry, n);
        if before.contains(id) {
            let k = choose|k: int| 0 <= k < before.len() && before[k] == id;
            assert(out[k] == id);
        }
        if blocks[n - 1].entry_id == entry && blocks[n - 1].id == id {
            assert(out[before.len() as int] == id);
        }
        if out.contains(id) && !before.contains(id) {
            assert(blocks[n - 1].entry_id == entry && blocks[n - 1].id == id);
        }
        if exists|i: int|
            0 <= i < n - 1 && (#[trigger] blocks[i]).entry_id == entry && blocks[i].id == id {
            let i = choose|i: int|
                0 <= i < n - 1 && (#[trigger] blocks[i]).entry_id == entry && blocks[i].id == id;
            assert(blocks[i].id == id);
        }
    }
}

/// One of an entry's blocks has the identifier.
pub open spec fn is_block_of(db: ContentSpec, entry: Id, block: Id) -> bool {
    exists|i: int|
        0 <= i < db.blocks.len() && (#[trigger] db.blocks[i]).entry_id == entry && db.blocks[i].id
            == block
}

/// Deleting an entry takes it, its blocks, their chunks and its links, and
/// nothing else; where there is none, nothing.
pub proof fn law_deleting_an_entry_takes_nothing_else(db: ContentSpec, id: Id, e: int)
    ensures
        (forall|i: int| 0 <= i < db.entries.len() ==> (#[trigger] db.entries[i]).id != id)
            ==> entries::without_entry(db, id) == db,
        is_entry(db, id, e) ==> {
            let after = entries::without_entry(db, id);
            &&& after.entries == db.entries.remove(e)
            &&& after.blocks == db.blocks.filter(|b: BlockRow| b.entry_id != id)
            &&& after.chunks == db.chunks.filter(|c: ChunkRow| !is_block_of(db, id, c.block_id))
            &&& after.links == db.links.filter(
                |l: LinkRow| l.source_id != id && l.target_id != id,
            )
        },
{
    lemma_place(db, id, e);
    lemma_not_owned(id);
    let gone = entries::block_ids(db.blocks, id, db.blocks.len());
    let keep = |b: BlockRow| !seq![id].contains(Block::owner_of(b));
    let other = |b: BlockRow| b.entry_id != id;
    assert(keep =~= other) by {
        assert forall|b: BlockRow| #[trigger] keep(b) == other(b) by {
            assert(Block::owner_of(b) == b.entry_id);
            assert(seq![id].contains(b.entry_id) <==> b.entry_id == id);
        }
    }
    let keep_chunk = |c: ChunkRow| !gone.contains(Chunk::owner_of(c));
    let other_chunk = |c: ChunkRow| !is_block_of(db, id, c.block_id);
    assert(keep_chunk =~= other_chunk) by {
        assert forall|c: ChunkRow| #[trigger] keep_chunk(c) == other_chunk(c) by {
            lemma_block_ids(db.blocks, id, db.blocks.len(), c.block_id);
            assert(Chunk::owner_of(c) == c.block_id);
        }
    }
    assert(entries::elsewhere(id) =~= (|l: LinkRow| l.source_id != id && l.target_id != id));
}

/// An entry's change sets what was given and leaves the rest: a source can be
/// taken away, and everything else in the index stays.
pub proof fn law_entry_change_sets_what_was_given(
    db: ContentSpec,
    id: Id,
    p: UpdateEntry,
    now: Timestamp,
    e: int,
)
    requires
        is_entry(db, id, e),
    ensures
        ({
            let old = db.entries[e];
            let after = entries::with_update(db, id, p, now);
            let new = after.entries[e];
            &&& after.entries.len() == db.entries.len()
            &&& forall|i: int|
                0 <= i < db.entries.len() && i != e ==> #[trigger] after.entries[i]
                    == db.entries[i]
            &&& after.blocks == db.blocks
            &&& after.chunks == db.chunks
            &&& after.links == db.links
            &&& new.id == old.id
            &&& new.created_at == old.created_at
            &&& new.fs_path == old.fs_path
            &&& new.fs_mtime == old.fs_mtime
            &&& new.updated_at == now
            &&& new.title == if p.title is Some {
                p.title->0@
            } else {
                old.title
            }
            &&& new.tags == if p.tags is Some {
                text::texts(p.tags->0@)
            } else {
                old.tags
            }
            &&& new.attrs == if p.attrs is Some {
                p.attrs->0@
            } else {
                old.attrs
            }
            &&& p.source is None ==> new.source == old.source
            &&& p.source == Some(None::<String>) ==> new.source is None
            &&& p.source matches Some(Some(s)) ==> new.source == Some(s@)
            &&& entries::update_fault(db, id, p) is None <==> (p.attrs is Some
                ==> p.attrs->0@ is Object)
        }),
{
    lemma_place(db, id, e);
}

/// A new entry is what was given, with no tags and no attributes where none
/// were; its blocks are those given, in order from 0 on; and its file says the
/// same, each block's text ending its line.
pub proof fn law_new_entry_is_what_was_given(
    p: CreateEntry,
    id: Id,
    mtime: Seq<char>,
    now: Timestamp,
    i: int,
)
    ensures
        ({
            let row = entries::new_row(p, id, mtime, now);
            let doc = entries::new_doc(p, id, now);
            &&& row.id == id && doc.id == id
            &&& row.title == p.title@ && doc.title == p.title@
            &&& p.tags is Some ==> row.tags == text::texts(p.tags->0@)
            &&& p.tags is None ==> row.tags.len() == 0
            &&& doc.tags == row.tags
            &&& p.attrs is Some ==> row.attrs == p.attrs->0@
            &&& p.attrs is None ==> row.attrs is Object && row.attrs->Object_0.len() == 0
            &&& row.attrs is Object ==> doc.attrs == row.attrs->Object_0
            &&& p.source is Some ==> row.source == Some(p.source->0@)
            &&& p.source is None ==> row.source is None
            &&& doc.source == row.source
            &&& row.fs_path == Some("entries/"@ + ids::text_of_id(id) + "/entry.nomai"@)
            &&& row.fs_mtime == Some(mtime)
            &&& row.created_at == now && row.updated_at == now
            &&& doc.created_at == now && doc.updated_at == now
            &&& doc.format_version == 1
            &&& doc.blocks.len() == p.blocks@.len()
            &&& entries::blocks_at(p.blocks@, id).len() == p.blocks@.len()
            &&& 0 <= i < p.blocks@.len() && i <= u32::MAX ==> {
                let given = p.blocks@[i];
                let b = entries::blocks_at(p.blocks@, id)[i];
                &&& b.entry_id == id
                &&& b.ordinal == i
                &&& b.type_ == given.type_@
                &&& b.text == given.text@
                &&& given.attrs is Some ==> b.attrs == given.attrs->0@
                &&& given.attrs is None ==> b.attrs is Object && b.attrs->Object_0.len() == 0
                &&& doc.blocks[i].text == given.text@ + "\n"@
                &&& b.attrs is Object ==> doc.blocks[i].attrs == b.attrs->Object_0
                &&& BlockType::named(given.type_@) is Some ==> doc.blocks[i].type_
                    == BlockType::named(given.type_@)->0
            }
        }),
{
}

proof fn lemma_unknown_type(blocks: Seq<BlockInput>, n: nat)
    requires
        n <= blocks.len(),
    ensures
        entries::unknown_type(blocks, n) is None <==> forall|i: int|
            0 <= i < n ==> BlockType::named((#[trigger] blocks[i]).type_@) is Some,
    decreases n,
{
    if n > 0 {
        lemma_unknown_type(blocks, (n - 1) as nat);
    }
}

/// An entry is refused where its attributes are no object, it has no block, or
/// a block's type is not known; and only then.
pub proof fn law_why_an_entry_is_refused(p: CreateEntry)
    ensures
        entries::create_fault(p) is None <==> {
            &&& p.attrs is Some ==> p.attrs->0@ is Object
            &&& p.blocks@.len() > 0
            &&& forall|i: int|
                0 <= i < p.blocks@.len() ==> BlockType::named((#[trigger] p.blocks@[i]).type_@) is Some
        },
{
    lemma_unknown_type(p.blocks@, p.blocks@.len());
}

proof fn lemma_sources(blocks: Seq<BlockInput>, files: Seq<Seq<char>>, n: nat)
    requires
        n <= blocks.len(),
    ensures
        entries::sources_fault(blocks, files, n) is None <==> forall|i: int|
            0 <= i < n ==> entries::block_source_fault(
                (#[trigger] blocks[i]).type_@,
                entries::source_of(blocks[i]),
                files,
            ) is None,
    decreases n,
{
    if n > 0 {
        lemma_sources(blocks, files, (n - 1) as nat);
    }
}

/// The text that a block names as its source, where it does.
pub open spec fn named_source(b: BlockInput) -> Option<Seq<char>> {
    if b.attrs is Some && b.attrs->0@ is Object && attrs::value_of(
        b.attrs->0@->Object_0,
        "src"@,
    ) is Some && attrs::value_of(b.attrs->0@->Object_0, "src"@)->0 is Text {
        Some(attrs::value_of(b.attrs->0@->Object_0, "src"@)->0->Text_0)
    } else {
        None
    }
}

/// An image must name a file that is there; a source that names anything must
/// name such a file or an address on the web; other blocks may say what they
/// like. One block that is refused refuses all.
pub proof fn law_declared_sources_exist(blocks: Seq<BlockInput>, files: Seq<Seq<char>>)
    ensures
        entries::sources_fault(blocks, files, blocks.len()) is None <==> forall|i: int|
            #![trigger blocks[i]]
            0 <= i < blocks.len() ==> {
                let src = named_source(blocks[i]);
                &&& blocks[i].type_@ == "image"@ ==> src is Some && files.contains(src->0)
                &&& blocks[i].type_@ == "source"@ && src is Some ==> files.contains(src->0)
                    || "http://"@.is_prefix_of(src->0) || "https://"@.is_prefix_of(src->0)
            },
{
    lemma_sources(blocks, files, blocks.len());
    reveal_strlit("image");
    reveal_strlit("source");
    assert("image"@.len() != "source"@.len());
    assert forall|i: int|
        #![trigger blocks[i]]
        0 <= i < blocks.len() implies (entries::block_source_fault(
        blocks[i].type_@,
        entries::source_of(blocks[i]),
        files,
    ) is None <==> {
        let src = named_source(blocks[i]);
        &&& blocks[i].type_@ == "image"@ ==> src is Some && files.contains(src->0)
        &&& blocks[i].type_@ == "source"@ && src is Some ==> files.contains(src->0)
            || "http://"@.is_prefix_of(src->0) || "https://"@.is_prefix_of(src->0)
    }) by {
        lemma_source(blocks[i]);
        if let Some(s) = named_source(blocks[i]) {
            lemma_starts(s, "http://"@);
            lemma_starts(s, "https://"@);
        }
    }
}

proof fn lemma_source(b: BlockInput)
    ensures
        entries::source_of(b) == named_source(b),
{
    reveal(entries::source_of);
    if b.attrs is None || !(b.attrs->0@ is Object) {
        let none = attrs::given(b.attrs).members();
        assert(none.len() == 0);
        assert(!attrs::has_key(none, "src"@));
    }
}

proof fn lemma_starts(s: Seq<char>, prefix: Seq<char>)
    ensures
        text::occurs_at(s, prefix, 0) <==> prefix.is_prefix_of(s),
{
    if prefix.len() <= s.len() {
        assert(s.subrange(0, prefix.len() as int) =~= s.take(prefix.len() as int));
    }
}

/// What a file describes is what is read of it: the row has its title, tags,
/// attributes, source and times, and its blocks are the file's in order, each
/// without the line breaks that end it.
pub proof fn law_row_is_what_the_file_describes(doc: DocSpec, id: Id, mtime: Seq<char>, i: int)
    ensures
        ({
            let row = entries::row_of_doc(doc, id, mtime);
            let all = entries::blocks_of_doc(doc, id);
            &&& row.id == id
            &&& row.title == doc.title
            &&& row.tags == doc.tags
            &&& row.attrs is Object && row.attrs->Object_0 == doc.attrs
            &&& row.source == doc.source
            &&& row.created_at == doc.created_at
            &&& row.updated_at == doc.updated_at
            &&& row.fs_path == Some("entries/"@ + ids::text_of_id(id) + "/entry.nomai"@)
            &&& row.fs_mtime == Some(mtime)
            &&& all.len() == doc.blocks.len()
            &&& 0 <= i < doc.blocks.len() && i <= u32::MAX ==> {
                &&& all[i].entry_id == id
                &&& all[i].ordinal == i
                &&& all[i].type_ == doc.blocks[i].type_.name()
                &&& all[i].attrs is Object && all[i].attrs->Object_0 == doc.blocks[i].attrs
                &&& all[i].text.is_prefix_of(doc.blocks[i].text)
                &&& forall|k: int|
                    all[i].text.len() <= k < doc.blocks[i].text.len()
                        ==> #[trigger] doc.blocks[i].text[k] == '\n'
                &&& all[i].text.len() > 0 ==> all[i].text.last() != '\n'
            }
        }),
{
    if 0 <= i < doc.blocks.len() {
        lemma_trimmed(doc.blocks[i].text);
    }
}

proof fn lemma_trimmed(s: Seq<char>)
    ensures
        entries::trimmed(s).is_prefix_of(s),
        forall|k: int|
            entries::trimmed(s).len() <= k < s.len() ==> #[trigger] s[k] == '\n',
        entries::trimmed(s).len() > 0 ==> entries::trimmed(s).last() != '\n',
    decreases s.len(),
{
    if s.len() > 0 && s.last() == '\n' {
        lemma_trimmed(s.drop_last());
        assert forall|k: int| entries::trimmed(s).len() <= k < s.len() implies #[trigger] s[k]
            == '\n' by {
            if k < s.len() - 1 {
                assert(s.drop_last()[k] == '\n');
            }
        }
        assert(entries::trimmed(s) =~= s.take(entries::trimmed(s).len() as int));
    }
}

/// What is said of attributes that are no object.
pub open spec fn says_no_object(fault: Option<CoreFault>) -> bool {
    fault == Some(CoreFault::Validation("attrs must be a JSON object"@))
}

/// A refused block says why: its attributes, then its type, then its entry, then
/// its place.
pub proof fn law_refused_block_says_why(db: ContentSpec, p: CreateSpec, e: int, b: int)
    ensures
        ({
            let fault = blocks::create_fault(db, p);
            let known = p.attrs is Object && BlockType::named(p.type_) is Some;
            &&& !(p.attrs is Object) ==> says_no_object(fault)
            &&& p.attrs is Object && BlockType::named(p.type_) is None ==> fault == Some(
                CoreFault::Validation("unknown block type: "@ + p.type_),
            )
            &&& known && (forall|i: int|
                0 <= i < db.entries.len() ==> (#[trigger] db.entries[i]).id != p.entry_id)
                ==> fault == Some(
                CoreFault::Validation("constraint violation: FOREIGN KEY constraint failed"@),
            )
            &&& known && is_entry(db, p.entry_id, e) && 0 <= b < db.blocks.len()
                && db.blocks[b].entry_id == p.entry_id && db.blocks[b].ordinal == p.ordinal
                ==> fault == Some(
                CoreFault::Validation(
                    "constraint violation: UNIQUE constraint failed: blocks.entry_id, blocks.ordinal"@,
                ),
            )
        }),
{
    lemma_place(db, p.entry_id, e);
    if 0 <= b < db.blocks.len() && db.blocks[b].entry_id == p.entry_id && db.blocks[b].ordinal
        == p.ordinal {
        assert(blocks::place_taken(db.blocks, p.entry_id, p.ordinal));
    }
}

/// A refused entry says why: its attributes, then that it has no block, then the
/// first type that is not known. A change says that there is no such entry, or
/// that the attributes are no object.
pub proof fn law_refused_entry_says_why(
    db: ContentSpec,
    p: CreateEntry,
    k: int,
    id: Id,
    u: UpdateEntry,
)
    ensures
        ({
            let fault = entries::create_fault(p);
            let object = p.attrs is Some ==> p.attrs->0@ is Object;
            &&& !object ==> says_no_object(fault)
            &&& object && p.blocks@.len() == 0 ==> fault == Some(
                CoreFault::Validation("blocks must not be empty"@),
            )
            &&& object && 0 <= k < p.blocks@.len() && BlockType::named(p.blocks@[k].type_@) is None
                && (forall|i: int|
                0 <= i < k ==> BlockType::named((#[trigger] p.blocks@[i]).type_@) is Some)
                ==> fault == Some(
                CoreFault::Validation("unknown block type: "@ + p.blocks@[k].type_@),
            )
        }),
        ({
            let fault = entries::update_fault(db, id, u);
            &&& (forall|i: int| 0 <= i < db.entries.len() ==> (#[trigger] db.entries[i]).id != id)
                ==> fault == Some(CoreFault::NotFound(id))
            &&& (exists|i: int| 0 <= i < db.entries.len() && (#[trigger] db.entries[i]).id == id)
                && u.attrs is Some && !(u.attrs->0@ is Object) ==> says_no_object(fault)
        }),
{
    lemma_place(db, id, 0);
    if 0 <= k < p.blocks@.len() {
        lemma_first_unknown(p.blocks@, k, p.blocks@.len());
    }
}

proof fn lemma_first_unknown(blocks: Seq<BlockInput>, k: int, n: nat)
    requires
        0 <= k,
        n <= blocks.len(),
        k < blocks.len(),
    ensures
        BlockType::named(blocks[k].type_@) is None && (forall|i: int|
            0 <= i < k ==> BlockType::named((#[trigger] blocks[i]).type_@) is Some) && k < n
            ==> entries::unknown_type(blocks, n) == Some(blocks[k].type_@),
    decreases n,
{
    if n > 0 {
        lemma_first_unknown(blocks, k, (n - 1) as nat);
        lemma_unknown_type(blocks, (n - 1) as nat);
    }
}

/// A refused source says why: an image that names none, or what is not there.
pub proof fn law_refused_source_says_why(files: Seq<Seq<char>>, s: Seq<char>)
    ensures
        entries::block_source_fault("image"@, None, files) == Some(
            CoreFault::Validation("image block missing required attr: src"@),
        ),
        !files.contains(s) ==> entries::block_source_fault("image"@, Some(s), files) == Some(
            CoreFault::Validation("declared source not found: "@ + s),
        ),
        !files.contains(s) && !"http://"@.is_prefix_of(s) && !"https://"@.is_prefix_of(s)
            ==> entries::block_source_fault("source"@, Some(s), files) == Some(
            CoreFault::Validation("declared source not found: "@ + s),
        ),
{
    reveal_strlit("image");
    reveal_strlit("source");
    assert("image"@.len() != "source"@.len());
    lemma_starts(s, "http://"@);
    lemma_starts(s, "https://"@);
}

} // verus!
