//! Blocks of entries: creating, appending, changing, listing and deleting them,
//! with the chunks that are derived from their text.
use vstd::prelude::*;
use vstd::string::*;

use crate::attrs::{self, AttrSpec, AttrValue, AttrsSpec, AttrsValue};
use crate::block_model::{self, Block, BlockListResult, BlockRow, CreateBlock, CreateSpec};
use crate::chunk_model::{Chunk, ChunkRow};
use crate::chunking;
use crate::content::{self, ContentDb, ContentSpec};
use crate::entries;
use crate::entry_list;
use crate::error::{CoreError, CoreFault};
use crate::event_model::{EventHead, HeadSpec};
use crate::ids::Id;
use crate::model::EntryRow;
use crate::nomai_format::BlockType;
use crate::ordering;
use crate::tables::{self, Copied};
use crate::text;
use crate::time::Timestamp;
use crate::visibility;

verus! {

/// What is said of attributes that are not an object.
pub open spec fn attrs_fault() -> CoreFault {
    CoreFault::Validation("attrs must be a JSON object"@)
}

/// What is said of a block for an entry that does not exist.
pub open spec fn no_entry_fault() -> CoreFault {
    CoreFault::Validation("constraint violation: FOREIGN KEY constraint failed"@)
}

/// What is said of a block whose place is taken.
pub open spec fn ordinal_fault() -> CoreFault {
    CoreFault::Validation(
        "constraint violation: UNIQUE constraint failed: blocks.entry_id, blocks.ordinal"@,
    )
}

/// The attributes of a block's chunks: the block's own, and its type.
pub open spec fn chunk_attrs(block: BlockRow) -> AttrsSpec {
    AttrsSpec::Object(
        attrs::with_member(
            block.attrs.members(),
            "parent_block_type"@,
            AttrSpec::Text(block.type_),
        ),
    )
}

/// How many chunks a text has.
pub open spec fn chunk_count(s: Seq<char>, target: usize) -> nat {
    chunking::chunks_of(s, target as nat).len()
}

/// The chunks of a block, with the identifiers `ids`, made at `now`.
pub open spec fn chunks_for(block: BlockRow, ids: Seq<Id>, target: usize, now: Timestamp) -> Seq<
    ChunkRow,
> {
    Seq::new(
        chunk_count(block.text, target),
        |i: int|
            ChunkRow {
                id: ids[i],
                block_id: block.id,
                ordinal: i as u32,
                text: chunking::chunks_of(block.text, target as nat)[i],
                attrs: chunk_attrs(block),
                created_at: now,
                updated_at: now,
            },
    )
}

/// Derive the chunks of a block.
pub fn derive_chunks(block: &Block, ids: &Vec<Id>, target: usize, now: Timestamp) -> (r: Vec<Chunk>)
    requires
        ids.len() >= chunk_count(block.text@, target),
    ensures
        ordering::views(r@) == chunks_for(block@, ids@, target, now),
{
    let ghost rows = chunks_for(block@, ids@, target, now);
    let mut members = block.attrs.object_or_empty();
    members.set("parent_block_type".to_owned(), AttrValue::Text(block.type_.clone()));
    let texts = chunking::chunk_text(block.text.as_str(), target);
    let mut out: Vec<Chunk> = Vec::new();
    let mut i: usize = 0;
    proof {
        assert(ordering::views(out@) =~= rows.take(0));
    }
    while i < texts.len()
        invariant
            i <= texts.len(),
            text::texts(texts@) == chunking::chunks_of(block.text@, target as nat),
            rows == chunks_for(block@, ids@, target, now),
            ids.len() >= texts.len(),
            AttrsSpec::Object(members@) == chunk_attrs(block@),
            ordering::views(out@) == rows.take(i as int),
        decreases texts.len() - i,
    {
        let ghost before = out@;
        let chunk = Chunk {
            id: ids[i],
            block_id: block.id,
            ordinal: i as u32,
            text: texts[i].clone(),
            attrs: AttrsValue::Object(members.copy()),
            created_at: now,
            updated_at: now,
        };
        let ghost row = chunk@;
        out.push(chunk);
        proof {
            assert(text::texts(texts@)[i as int] == texts@[i as int]@);
            assert(row == rows[i as int]);
            assert(ordering::views(out@) =~= ordering::views(before).push(row));
            assert(rows.take(i + 1) =~= rows.take(i as int).push(rows[i as int]));
        }
        i += 1;
    }
    proof {
        assert(text::texts(texts@).len() == texts@.len());
        assert(rows.take(i as int) =~= rows);
    }
    out
}

/// A block of the entry has the ordinal.
pub open spec fn place_taken(blocks: Seq<BlockRow>, entry: Id, ordinal: u32) -> bool {
    exists|i: int|
        0 <= i < blocks.len() && (#[trigger] blocks[i]).entry_id == entry && blocks[i].ordinal
            == ordinal
}

fn is_place_taken(blocks: &Vec<Block>, entry: Id, ordinal: u32) -> (r: bool)
    ensures
        r == place_taken(ordering::views(blocks@), entry, ordinal),
{
    let ghost rows = ordering::views(blocks@);
    let mut i: usize = 0;
    while i < blocks.len()
        invariant
            i <= blocks.len(),
            rows == ordering::views(blocks@),
            forall|k: int|
                0 <= k < i ==> !((#[trigger] rows[k]).entry_id == entry && rows[k].ordinal
                    == ordinal),
        decreases blocks.len() - i,
    {
        proof {
            assert(rows[i as int] == blocks@[i as int]@);
        }
        if blocks[i].entry_id == entry && blocks[i].ordinal == ordinal {
            return true;
        }
        i += 1;
    }
    false
}

/// The block that is created.
pub open spec fn new_block(p: CreateSpec, id: Id, now: Timestamp) -> BlockRow {
    BlockRow {
        id,
        entry_id: p.entry_id,
        ordinal: p.ordinal,
        type_: p.type_,
        text: p.text,
        attrs: p.attrs,
        created_at: now,
        updated_at: now,
    }
}

/// Why a block cannot be created.
pub open spec fn create_fault(db: ContentSpec, p: CreateSpec) -> Option<CoreFault> {
    if !(p.attrs is Object) {
        Some(attrs_fault())
    } else if BlockType::named(p.type_) is None {
        Some(entries::unknown_type_fault(p.type_))
    } else if !db.has_entry(p.entry_id) {
        Some(no_entry_fault())
    } else if place_taken(db.blocks, p.entry_id, p.ordinal) {
        Some(ordinal_fault())
    } else {
        None
    }
}

/// The index with one more block and its chunks.
pub open spec fn with_block(
    db: ContentSpec,
    block: BlockRow,
    chunk_ids: Seq<Id>,
    target: usize,
) -> ContentSpec {
    ContentSpec {
        blocks: db.blocks.push(block),
        chunks: db.chunks + chunks_for(block, chunk_ids, target, block.created_at),
        ..db
    }
}

/// The head of an event about a block.
pub open spec fn block_event(type_: Seq<char>, id: Id) -> HeadSpec {
    HeadSpec { type_, target_type: "block"@, target_id: id }
}

fn chunks_appended(chunks: Vec<Chunk>, more: Vec<Chunk>) -> (r: Vec<Chunk>)
    ensures
        ordering::views(r@) == ordering::views(chunks@) + ordering::views(more@),
{
    let ghost (a, b) = (chunks@, more@);
    let mut out = chunks;
    let mut rest = more;
    out.append(&mut rest);
    proof {
        assert(ordering::views(out@) =~= ordering::views(a) + ordering::views(b));
    }
    out
}

/// Create a block and derive its chunks. Gives the block, whose snapshot is
/// the payload of the event.
pub fn create_block(
    db: ContentDb,
    p: CreateBlock,
    id: Id,
    chunk_ids: &Vec<Id>,
    target: usize,
    now: Timestamp,
) -> (r: Result<(ContentDb, Block, EventHead), CoreError>)
    requires
        chunk_ids.len() >= chunk_count(p.text@, target),
    ensures
        match r {
            Ok((after, block, event)) => {
                &&& create_fault(db@, p@) is None
                &&& block@ == new_block(p@, id, now)
                &&& after@ == with_block(db@, block@, chunk_ids@, target)
                &&& event@ == block_event("block.created"@, id)
            },
            Err(e) => create_fault(db@, p@) == Some(e@),
        },
{
    let CreateBlock { entry_id, ordinal, type_, text, attrs } = p;
    let attrs = attrs::or_empty(attrs);
    if !attrs.is_object() {
        return Err(CoreError::validation("attrs must be a JSON object"));
    }
    if let Err(e) = entries::parse_block_type(type_.as_str()) {
        return Err(e);
    }
    if tables::find_row(&db.entries, entry_id).is_none() {
        return Err(
            CoreError::validation("constraint violation: FOREIGN KEY constraint failed"),
        );
    }
    if is_place_taken(&db.blocks, entry_id, ordinal) {
        return Err(
            CoreError::validation(
                "constraint violation: UNIQUE constraint failed: blocks.entry_id, blocks.ordinal",
            ),
        );
    }
    let block = Block {
        id,
        entry_id,
        ordinal,
        type_,
        text,
        attrs,
        created_at: now,
        updated_at: now,
    };
    let derived = derive_chunks(&block, chunk_ids, target, now);
    let snapshot = block.copy();
    let ContentDb { entries, blocks, chunks, links } = db;
    let ghost old_blocks = blocks@;
    let mut blocks = blocks;
    let ghost row = block@;
    blocks.push(block);
    proof {
        assert(ordering::views(blocks@) =~= ordering::views(old_blocks).push(row));
    }
    let chunks = chunks_appended(chunks, derived);
    let after = ContentDb { entries, blocks, chunks, links };
    Ok((after, snapshot, EventHead { type_: "block.created", target_type: "block", target_id: id }))
}

/// The largest ordinal among the entry's blocks, of the first `n`.
pub open spec fn max_ordinal(blocks: Seq<BlockRow>, entry: Id, n: nat) -> Option<u32>
    decreases n,
{
    if n == 0 {
        None
    } else {
        let before = max_ordinal(blocks, entry, (n - 1) as nat);
        let b = blocks[n - 1];
        if b.entry_id != entry {
            before
        } else {
            match before {
                Some(m) => Some(
                    if b.ordinal > m {
                        b.ordinal
                    } else {
                        m
                    },
                ),
                None => Some(b.ordinal),
            }
        }
    }
}

/// The ordinal that a block appended to the entry gets: one past the largest,
/// and 0 for the first. Past the end of the range it starts again at 0.
pub open spec fn next_ordinal(blocks: Seq<BlockRow>, entry: Id) -> u32 {
    match max_ordinal(blocks, entry, blocks.len()) {
        Some(m) => if m == u32::MAX {
            0
        } else {
            (m + 1) as u32
        },
        None => 0,
    }
}

fn find_next_ordinal(blocks: &Vec<Block>, entry: Id) -> (r: u32)
    ensures
        r == next_ordinal(ordering::views(blocks@), entry),
{
    let ghost rows = ordering::views(blocks@);
    let mut best: Option<u32> = None;
    let mut i: usize = 0;
    while i < blocks.len()
        invariant
            i <= blocks.len(),
            rows == ordering::views(blocks@),
            best == max_ordinal(rows, entry, i as nat),
        decreases blocks.len() - i,
    {
        proof {
            assert(rows[i as int] == blocks@[i as int]@);
        }
        if blocks[i].entry_id == entry {
            let o = blocks[i].ordinal;
            best = match best {
                Some(m) => Some(
                    if o > m {
                        o
                    } else {
                        m
                    },
                ),
                None => Some(o),
            };
        }
        i += 1;
    }
    match best {
        Some(m) => if m == u32::MAX {
            0
        } else {
            m + 1
        },
        None => 0,
    }
}

/// The block that an append creates.
pub open spec fn appended(
    db: ContentSpec,
    entry: Id,
    type_: Seq<char>,
    text: Seq<char>,
    attrs: AttrsSpec,
) -> CreateSpec {
    CreateSpec { entry_id: entry, ordinal: next_ordinal(db.blocks, entry), type_, text, attrs }
}

/// Append a block to an entry.
pub fn append_block(
    db: ContentDb,
    entry: Id,
    type_: String,
    text: String,
    attrs: Option<AttrsValue>,
    id: Id,
    chunk_ids: &Vec<Id>,
    target: usize,
    now: Timestamp,
) -> (r: Result<(ContentDb, Block, EventHead), CoreError>)
    requires
        chunk_ids.len() >= chunk_count(text@, target),
    ensures
        ({
            let p = appended(db@, entry, type_@, text@, attrs::given(attrs));
            match r {
                Ok((after, block, event)) => {
                    &&& db@.has_entry(entry)
                    &&& create_fault(db@, p) is None
                    &&& block@ == new_block(p, id, now)
                    &&& after@ == with_block(db@, block@, chunk_ids@, target)
                    &&& event@ == block_event("block.created"@, id)
                },
                Err(e) => if db@.has_entry(entry) {
                    create_fault(db@, p) == Some(e@)
                } else {
                    e@ == CoreFault::NotFound(entry)
                },
            }
        }),
{
    if tables::find_row(&db.entries, entry).is_none() {
        return Err(CoreError::NotFound(entry));
    }
    let ordinal = find_next_ordinal(&db.blocks, entry);
    let p = CreateBlock { entry_id: entry, ordinal, type_, text, attrs };
    create_block(db, p, id, chunk_ids, target, now)
}

/// What is to change in a block. What is not given stays.
#[derive(Debug, Clone)]
pub struct BlockChange {
    pub type_: Option<String>,
    pub text: Option<String>,
    pub attrs: Option<AttrsValue>,
}

/// The block after a change.
pub open spec fn changed(block: BlockRow, c: BlockChange, now: Timestamp) -> BlockRow {
    BlockRow {
        type_: match c.type_ {
            Some(t) => t@,
            None => block.type_,
        },
        text: match c.text {
            Some(t) => t@,
            None => block.text,
        },
        attrs: match c.attrs {
            Some(a) => a@,
            None => block.attrs,
        },
        updated_at: now,
        ..block
    }
}

/// Why a block cannot be changed.
pub open spec fn change_fault(db: ContentSpec, id: Id, c: BlockChange, now: Timestamp) -> Option<
    CoreFault,
> {
    match tables::row_of::<Block>(db.blocks, id) {
        None => Some(CoreFault::NotFound(id)),
        Some(i) => if !(changed(db.blocks[i], c, now).attrs is Object) {
            Some(attrs_fault())
        } else {
            match c.type_ {
                Some(t) => if BlockType::named(t@) is None {
                    Some(entries::unknown_type_fault(t@))
                } else {
                    None
                },
                None => None,
            }
        },
    }
}

/// The index after a block's change. Chunks are derived anew only where the
/// text is another.
pub open spec fn with_change(
    db: ContentSpec,
    id: Id,
    c: BlockChange,
    chunk_ids: Seq<Id>,
    target: usize,
    now: Timestamp,
) -> ContentSpec {
    let i = tables::row_of::<Block>(db.blocks, id)->0;
    let before = db.blocks[i];
    let after = changed(before, c, now);
    ContentSpec {
        blocks: db.blocks.update(i, after),
        chunks: if after.text == before.text {
            db.chunks
        } else {
            content::unowned::<Chunk>(db.chunks, seq![id]) + chunks_for(
                after,
                chunk_ids,
                target,
                now,
            )
        },
        ..db
    }
}

/// Change a block. What is not given stays.
pub fn update_block(
    db: ContentDb,
    id: Id,
    change: BlockChange,
    chunk_ids: &Vec<Id>,
    target: usize,
    now: Timestamp,
) -> (r: Result<(ContentDb, Block, EventHead), CoreError>)
    requires
        change.text matches Some(t) ==> chunk_ids.len() >= chunk_count(t@, target),
    ensures
        match r {
            Ok((after, block, event)) => {
                let i = tables::row_of::<Block>(db@.blocks, id)->0;
                &&& change_fault(db@, id, change, now) is None
                &&& block@ == changed(db@.blocks[i], change, now)
                &&& after@ == with_change(db@, id, change, chunk_ids@, target, now)
                &&& event@ == block_event("block.updated"@, id)
            },
            Err(e) => change_fault(db@, id, change, now) == Some(e@),
        },
{
    let ghost start = db@;
    let ghost asked = change;
    let at = match tables::find_row(&db.blocks, id) {
        Some(i) => i,
        None => {
            return Err(CoreError::NotFound(id));
        },
    };
    let ContentDb { entries, blocks, chunks, links } = db;
    let mut blocks = blocks;
    let ghost old_blocks = blocks@;
    proof {
        assert(start.blocks[at as int] == old_blocks[at as int]@);
    }
    let BlockChange { type_, text, attrs } = change;
    let mut block = blocks[at].copy();
    let mut unknown: Option<CoreError> = None;
    if let Some(t) = type_ {
        if let Err(e) = entries::parse_block_type(t.as_str()) {
            unknown = Some(e);
        }
        block.type_ = t;
    }
    let mut new_text = false;
    if let Some(t) = text {
        new_text = !text::same(t.as_str(), block.text.as_str());
        block.text = t;
    }
    if let Some(a) = attrs {
        block.attrs = a;
    }
    if !block.attrs.is_object() {
        return Err(CoreError::validation("attrs must be a JSON object"));
    }
    if let Some(e) = unknown {
        return Err(e);
    }
    block.updated_at = now;
    proof {
        assert(block@ == changed(start.blocks[at as int], asked, now));
    }
    let chunks = if new_text {
        let mut gone: Vec<Id> = Vec::new();
        gone.push(id);
        proof {
            assert(gone@ =~= seq![id]);
        }
        let kept = content::drop_owned(chunks, &gone);
        chunks_appended(kept, derive_chunks(&block, chunk_ids, target, now))
    } else {
        chunks
    };
    let snapshot = block.copy();
    let ghost row = block@;
    blocks.set(at, block);
    proof {
        assert(ordering::views(blocks@) =~= ordering::views(old_blocks).update(at as int, row));
    }
    let after = ContentDb { entries, blocks, chunks, links };
    Ok((after, snapshot, EventHead { type_: "block.updated", target_type: "block", target_id: id }))
}

/// The blocks of an entry, in order.
pub open spec fn blocks_of(blocks: Seq<BlockRow>, entry: Id) -> Seq<BlockRow> {
    ordering::in_order(content::owned::<Block>(blocks, entry), block_model::by_ordinal())
}

/// The blocks of an entry.
pub fn copy_blocks(blocks: &Vec<Block>, entry: Id) -> (r: Vec<Block>)
    ensures
        ordering::views(r@) == blocks_of(ordering::views(blocks@), entry),
{
    ordering::put_in_order(content::copy_owned(blocks, entry), &())
}

/// The entry is a benchmark fixture, and those are not shown.
pub open spec fn hidden(db: ContentSpec, entry: Id, include_benchmark: bool) -> bool {
    !include_benchmark && (tables::row_of::<EntryRow>(db.entries, entry) matches Some(i)
        && visibility::is_benchmark(db.entries[i].attrs))
}

/// Whether the entry is a benchmark fixture, and those are not shown.
pub fn is_hidden(db: &ContentDb, entry: Id, include_benchmark: bool) -> (r: bool)
    ensures
        r == hidden(db@, entry, include_benchmark),
{
    !include_benchmark && entry_list::is_benchmark_entry(&db.entries, entry)
}

/// List the blocks of an entry. Those of a benchmark fixture are listed only
/// where fixtures are shown.
pub fn list_blocks(db: &ContentDb, entry: Id, include_benchmark: bool) -> (r: BlockListResult)
    ensures
        ordering::views(r.items@) == if hidden(db@, entry, include_benchmark) {
            Seq::empty()
        } else {
            blocks_of(db@.blocks, entry)
        },
        r.total == r.items@.len(),
{
    if is_hidden(db, entry, include_benchmark) {
        let items: Vec<Block> = Vec::new();
        proof {
            assert(ordering::views(items@) =~= Seq::empty());
        }
        return BlockListResult { items, total: 0 };
    }
    let items = copy_blocks(&db.blocks, entry);
    let total = items.len() as u64;
    BlockListResult { items, total }
}

/// The block exists, and its entry is not hidden.
pub open spec fn block_visible(db: ContentSpec, id: Id, include_benchmark: bool) -> bool {
    tables::row_of::<Block>(db.blocks, id) matches Some(i) && !hidden(
        db,
        db.blocks[i].entry_id,
        include_benchmark,
    )
}

/// Get a block. One of a benchmark fixture is found only where fixtures are
/// shown.
pub fn get_block(db: &ContentDb, id: Id, include_benchmark: bool) -> (r: Result<Block, CoreError>)
    ensures
        match r {
            Ok(b) => block_visible(db@, id, include_benchmark) && b@
                == db@.blocks[tables::row_of::<Block>(db@.blocks, id)->0],
            Err(e) => !block_visible(db@, id, include_benchmark) && e@ == CoreFault::NotFound(id),
        },
{
    match tables::find_row(&db.blocks, id) {
        Some(i) => {
            proof {
                assert(db@.blocks[i as int] == db.blocks@[i as int]@);
            }
            if is_hidden(db, db.blocks[i].entry_id, include_benchmark) {
                return Err(CoreError::NotFound(id));
            }
            Ok(db.blocks[i].copy())
        },
        None => Err(CoreError::NotFound(id)),
    }
}

/// The index without a block and its chunks.
pub open spec fn without_block(db: ContentSpec, id: Id) -> ContentSpec {
    ContentSpec {
        blocks: db.blocks.remove(tables::row_of::<Block>(db.blocks, id)->0),
        chunks: content::unowned::<Chunk>(db.chunks, seq![id]),
        ..db
    }
}

/// Delete a block and its chunks. Gives the block as it was.
pub fn delete_block(db: ContentDb, id: Id) -> (r: Result<(ContentDb, Block, EventHead), CoreError>)
    ensures
        match r {
            Ok((after, block, event)) => {
                &&& tables::row_of::<Block>(db@.blocks, id) matches Some(i) && block@
                    == db@.blocks[i]
                &&& after@ == without_block(db@, id)
                &&& event@ == block_event("block.deleted"@, id)
            },
            Err(e) => tables::row_of::<Block>(db@.blocks, id) is None && e@ == CoreFault::NotFound(
                id,
            ),
        },
{
    let at = match tables::find_row(&db.blocks, id) {
        Some(i) => i,
        None => {
            return Err(CoreError::NotFound(id));
        },
    };
    let ContentDb { entries, blocks, chunks, links } = db;
    let mut blocks = blocks;
    let ghost old_blocks = blocks@;
    let block = blocks.remove(at);
    let mut gone: Vec<Id> = Vec::new();
    gone.push(id);
    proof {
        assert(gone@ =~= seq![id]);
        assert(ordering::views(blocks@) =~= ordering::views(old_blocks).remove(at as int));
    }
    let chunks = content::drop_owned(chunks, &gone);
    let after = ContentDb { entries, blocks, chunks, links };
    Ok((after, block, EventHead { type_: "block.deleted", target_type: "block", target_id: id }))
}

} // verus!
