//! Entries: creating, reading, changing, deleting and reindexing them.
use vstd::prelude::*;
use vstd::string::*;

use crate::attrs::{self, AttrSpec, AttrValue, Attrs, AttrsSpec, AttrsValue};
use crate::block_model::{Block, BlockInput, BlockRow, CreateBlock, CreateSpec};
use crate::blocks;
use crate::chunk_model::Chunk;
use crate::content::{self, ContentDb, ContentSpec};
use crate::entry_model::{CreateEntry, UpdateEntry};
use crate::error::{CoreError, CoreFault};
use crate::event_model::{EventHead, HeadSpec};
use crate::ids::{self, Id};
use crate::link_model::{Link, LinkRow};
use crate::model::{Entry, EntryRow, EntryRowSpec, EntrySpec};
use crate::nomai_format::{self, BlockType, DocSpec, NomaiDoc};
use crate::ordering;
use crate::signals;
use crate::tables::{self, Copied};
use crate::text;
use crate::time::Timestamp;
use crate::visibility;

verus! {

/// The type of a block, or why there is none of that name.
pub fn parse_block_type(s: &str) -> (r: Result<BlockType, CoreError>)
    ensures
        match r {
            Ok(t) => BlockType::named(s@) == Some(t),
            Err(e) => BlockType::named(s@) is None && e@ == unknown_type_fault(s@),
        },
{
    match BlockType::from_str(s) {
        Some(t) => Ok(t),
        None => Err(CoreError::Validation(text::text2("unknown block type: ", s))),
    }
}

/// What is said of a block type that is not known.
pub open spec fn unknown_type_fault(s: Seq<char>) -> CoreFault {
    CoreFault::Validation("unknown block type: "@ + s)
}

/// The first of the first `n` blocks whose type is not known.
pub open spec fn unknown_type(blocks: Seq<BlockInput>, n: nat) -> Option<Seq<char>>
    decreases n,
{
    if n == 0 {
        None
    } else {
        match unknown_type(blocks, (n - 1) as nat) {
            Some(s) => Some(s),
            None => if BlockType::named(blocks[n - 1].type_@) is None {
                Some(blocks[n - 1].type_@)
            } else {
                None
            },
        }
    }
}

/// Why an entry cannot be created.
pub open spec fn create_fault(p: CreateEntry) -> Option<CoreFault> {
    if !(attrs::given(p.attrs) is Object) {
        Some(blocks::attrs_fault())
    } else if p.blocks@.len() == 0 {
        Some(CoreFault::Validation("blocks must not be empty"@))
    } else {
        match unknown_type(p.blocks@, p.blocks@.len()) {
            Some(s) => Some(unknown_type_fault(s)),
            None => None,
        }
    }
}

/// A block as it stands in the entry's file: its text ends its line.
pub open spec fn file_block(b: BlockInput) -> nomai_format::BlockSpec {
    nomai_format::BlockSpec {
        type_: BlockType::named(b.type_@)->0,
        text: b.text@ + "\n"@,
        attrs: attrs::given(b.attrs).members(),
    }
}

/// The tags that were given; none where none were.
pub open spec fn tags_given(tags: Option<Vec<String>>) -> Seq<Seq<char>> {
    match tags {
        Some(t) => text::texts(t@),
        None => Seq::empty(),
    }
}

/// The file of a new entry.
pub open spec fn new_doc(p: CreateEntry, id: Id, now: Timestamp) -> DocSpec {
    DocSpec {
        format_version: 1,
        id,
        title: p.title@,
        tags: tags_given(p.tags),
        attrs: attrs::given(p.attrs).members(),
        source: tables::opt_text(p.source),
        created_at: now,
        updated_at: now,
        blocks: p.blocks@.map_values(|b: BlockInput| file_block(b)),
    }
}

fn copy_given(attrs: &Option<AttrsValue>) -> (r: Attrs)
    ensures
        r@ == attrs::given(*attrs).members(),
{
    match attrs {
        Some(a) => a.object_or_empty(),
        None => Attrs::new(),
    }
}

fn copy_tags(tags: &Option<Vec<String>>) -> (r: Vec<String>)
    ensures
        text::texts(r@) == tags_given(*tags),
{
    match tags {
        Some(t) => tables::copy_texts(t),
        None => {
            let r: Vec<String> = Vec::new();
            proof {
                assert(text::texts(r@) =~= Seq::empty());
            }
            r
        },
    }
}

/// Check an entry to create, and make the document that its file holds.
pub fn document_of(p: &CreateEntry, id: Id, now: Timestamp) -> (r: Result<NomaiDoc, CoreError>)
    ensures
        match r {
            Ok(doc) => create_fault(*p) is None && doc@ == new_doc(*p, id, now),
            Err(e) => create_fault(*p) == Some(e@),
        },
{
    let object = match &p.attrs {
        Some(a) => a.is_object(),
        None => true,
    };
    if !object {
        return Err(CoreError::validation("attrs must be a JSON object"));
    }
    if p.blocks.len() == 0 {
        return Err(CoreError::validation("blocks must not be empty"));
    }
    let ghost rows = p.blocks@.map_values(|b: BlockInput| file_block(b));
    let mut out: Vec<nomai_format::Block> = Vec::new();
    let mut i: usize = 0;
    proof {
        assert(out@.map_values(|b: nomai_format::Block| b@) =~= rows.take(0));
    }
    while i < p.blocks.len()
        invariant
            i <= p.blocks.len(),
            rows == p.blocks@.map_values(|b: BlockInput| file_block(b)),
            attrs::given(p.attrs) is Object,
            p.blocks@.len() > 0,
            unknown_type(p.blocks@, i as nat) is None,
            out@.map_values(|b: nomai_format::Block| b@) == rows.take(i as int),
        decreases p.blocks.len() - i,
    {
        let b = &p.blocks[i];
        let type_ = match parse_block_type(b.type_.as_str()) {
            Ok(t) => t,
            Err(e) => {
                proof {
                    lemma_unknown_stays(p.blocks@, (i + 1) as nat, p.blocks@.len());
                }
                return Err(e);
            },
        };
        let made = nomai_format::Block {
            type_,
            text: text::text2(b.text.as_str(), "\n"),
            attrs: copy_given(&b.attrs),
        };
        let ghost before = out@;
        let ghost row = made@;
        out.push(made);
        proof {
            assert(row == rows[i as int]);
            assert(out@.map_values(|b: nomai_format::Block| b@) =~= before.map_values(
                |b: nomai_format::Block| b@,
            ).push(row));
            assert(rows.take(i + 1) =~= rows.take(i as int).push(rows[i as int]));
        }
        i += 1;
    }
    proof {
        assert(rows.take(i as int) =~= rows);
    }
    Ok(
        NomaiDoc {
            format_version: 1,
            id,
            title: p.title.clone(),
            tags: copy_tags(&p.tags),
            attrs: copy_given(&p.attrs),
            source: tables::copy_opt(&p.source),
            created_at: now,
            updated_at: now,
            blocks: out,
        },
    )
}

proof fn lemma_unknown_stays(blocks: Seq<BlockInput>, n: nat, m: nat)
    requires
        n <= m,
        unknown_type(blocks, n) is Some,
    ensures
        unknown_type(blocks, m) == unknown_type(blocks, n),
    decreases m,
{
    if n < m {
        lemma_unknown_stays(blocks, n, (m - 1) as nat);
    }
}

/// The source that a block refers to, where it is a string.
#[verifier::opaque]
pub open spec fn source_of(b: BlockInput) -> Option<Seq<char>> {
    match attrs::value_of(attrs::given(b.attrs).members(), "src"@) {
        Some(AttrSpec::Text(s)) => Some(s),
        _ => None,
    }
}

/// The source is an address on the web.
pub open spec fn is_url(s: Seq<char>) -> bool {
    text::occurs_at(s, "http://"@, 0) || text::occurs_at(s, "https://"@, 0)
}

/// What is said of a source that is not there.
pub open spec fn source_fault(s: Seq<char>) -> CoreFault {
    CoreFault::Validation("declared source not found: "@ + s)
}

/// Why a block's source is refused: an image must have one, and one that is
/// not on the web must be among the files. An image is never on the web.
pub open spec fn block_source_fault(
    type_: Seq<char>,
    source: Option<Seq<char>>,
    files: Seq<Seq<char>>,
) -> Option<CoreFault> {
    if type_ == "image"@ {
        match source {
            None => Some(CoreFault::Validation("image block missing required attr: src"@)),
            Some(s) => if files.contains(s) {
                None
            } else {
                Some(source_fault(s))
            },
        }
    } else if type_ == "source"@ {
        match source {
            None => None,
            Some(s) => if is_url(s) || files.contains(s) {
                None
            } else {
                Some(source_fault(s))
            },
        }
    } else {
        None
    }
}

/// Why the first `n` blocks' sources are refused.
pub open spec fn sources_fault(blocks: Seq<BlockInput>, files: Seq<Seq<char>>, n: nat) -> Option<
    CoreFault,
>
    decreases n,
{
    if n == 0 {
        None
    } else {
        match sources_fault(blocks, files, (n - 1) as nat) {
            Some(e) => Some(e),
            None => block_source_fault(
                blocks[n - 1].type_@,
                source_of(blocks[n - 1]),
                files,
            ),
        }
    }
}

fn starts_with(s: &str, prefix: &str) -> (r: bool)
    ensures
        r == text::occurs_at(s@, prefix@, 0),
{
    let hay = text::chars_of(s);
    let needle = text::chars_of(prefix);
    if needle.len() > hay.len() {
        return false;
    }
    text::matches_at(&hay, &needle, 0)
}

fn contains_text(texts: &Vec<String>, s: &str) -> (r: bool)
    ensures
        r == text::texts(texts@).contains(s@),
{
    let ghost held = text::texts(texts@);
    let mut k: usize = 0;
    while k < texts.len()
        invariant
            k <= texts.len(),
            held == text::texts(texts@),
            forall|j: int| 0 <= j < k ==> held[j] != s@,
        decreases texts.len() - k,
    {
        proof {
            assert(held[k as int] == texts@[k as int]@);
        }
        if text::same(texts[k].as_str(), s) {
            return true;
        }
        k += 1;
    }
    false
}

/// Check one block's source against the files of its entry.
pub fn check_source(type_: &str, source: &Option<String>, files: &Vec<String>) -> (r: Result<
    (),
    CoreError,
>)
    ensures
        match r {
            Ok(()) => block_source_fault(
                type_@,
                tables::opt_text(*source),
                text::texts(files@),
            ) is None,
            Err(e) => block_source_fault(
                type_@,
                tables::opt_text(*source),
                text::texts(files@),
            ) == Some(e@),
        },
{
    if text::same(type_, "image") {
        match source {
            None => Err(CoreError::validation("image block missing required attr: src")),
            Some(s) => if contains_text(files, s.as_str()) {
                Ok(())
            } else {
                Err(CoreError::Validation(text::text2("declared source not found: ", s.as_str())))
            },
        }
    } else if text::same(type_, "source") {
        match source {
            None => Ok(()),
            Some(s) => if starts_with(s.as_str(), "http://") || starts_with(
                s.as_str(),
                "https://",
            ) || contains_text(files, s.as_str()) {
                Ok(())
            } else {
                Err(CoreError::Validation(text::text2("declared source not found: ", s.as_str())))
            },
        }
    } else {
        Ok(())
    }
}

fn find_source(b: &BlockInput) -> (r: Option<String>)
    ensures
        tables::opt_text(r) == source_of(*b),
{
    reveal(source_of);
    let members = copy_given(&b.attrs);
    match members.get("src") {
        Some(v) => match v {
            AttrValue::Text(s) => Some(s.clone()),
            AttrValue::Json(_) => None,
        },
        None => None,
    }
}

/// Check that what blocks refer to is among the files of their entry.
pub fn check_sources(blocks: &Vec<BlockInput>, files: &Vec<String>) -> (r: Result<(), CoreError>)
    ensures
        match r {
            Ok(()) => sources_fault(blocks@, text::texts(files@), blocks@.len()) is None,
            Err(e) => sources_fault(blocks@, text::texts(files@), blocks@.len()) == Some(e@),
        },
{
    let mut i: usize = 0;
    while i < blocks.len()
        invariant
            i <= blocks.len(),
            sources_fault(blocks@, text::texts(files@), i as nat) is None,
        decreases blocks.len() - i,
    {
        let b = &blocks[i];
        let source = find_source(b);
        match check_source(b.type_.as_str(), &source, files) {
            Ok(()) => {},
            Err(e) => {
                proof {
                    lemma_sources_stay(
                        blocks@,
                        text::texts(files@),
                        (i + 1) as nat,
                        blocks@.len(),
                    );
                }
                return Err(e);
            },
        }
        i += 1;
    }
    Ok(())
}

proof fn lemma_sources_stay(blocks: Seq<BlockInput>, files: Seq<Seq<char>>, n: nat, m: nat)
    requires
        n <= m,
        sources_fault(blocks, files, n) is Some,
    ensures
        sources_fault(blocks, files, m) == sources_fault(blocks, files, n),
    decreases m,
{
    if n < m {
        lemma_sources_stay(blocks, files, n, (m - 1) as nat);
    }
}

/// Identifiers for blocks to create: one for each block, and enough for its
/// chunks.
#[derive(Debug, Clone)]
pub struct FreshIds {
    pub blocks: Vec<Id>,
    pub chunks: Vec<Vec<Id>>,
}

/// There are enough identifiers for the blocks.
pub open spec fn enough(fresh: FreshIds, inputs: Seq<CreateSpec>, target: usize) -> bool {
    &&& fresh.blocks@.len() >= inputs.len()
    &&& fresh.chunks@.len() >= inputs.len()
    &&& forall|i: int|
        0 <= i < inputs.len() ==> (#[trigger] fresh.chunks@[i])@.len() >= blocks::chunk_count(
            inputs[i].text,
            target,
        )
}

/// The index and the blocks that were made.
#[verifier::ext_equal]
pub struct Inserted {
    pub db: ContentSpec,
    pub made: Seq<BlockRow>,
}

/// The index after the first `n` blocks were created, or why one was not.
pub open spec fn inserted(
    db: ContentSpec,
    inputs: Seq<CreateSpec>,
    fresh: FreshIds,
    target: usize,
    now: Timestamp,
    n: nat,
) -> Result<Inserted, CoreFault>
    decreases n,
{
    if n == 0 {
        Ok(Inserted { db, made: Seq::empty() })
    } else {
        match inserted(db, inputs, fresh, target, now, (n - 1) as nat) {
            Err(e) => Err(e),
            Ok(before) => match blocks::create_fault(before.db, inputs[n - 1]) {
                Some(e) => Err(e),
                None => {
                    let row = blocks::new_block(inputs[n - 1], fresh.blocks@[n - 1], now);
                    Ok(
                        Inserted {
                            db: blocks::with_block(
                                before.db,
                                row,
                                fresh.chunks@[n - 1]@,
                                target,
                            ),
                            made: before.made.push(row),
                        },
                    )
                },
            },
        }
    }
}

proof fn lemma_inserted_err(
    db: ContentSpec,
    inputs: Seq<CreateSpec>,
    fresh: FreshIds,
    target: usize,
    now: Timestamp,
    n: nat,
    m: nat,
)
    requires
        n <= m,
        inserted(db, inputs, fresh, target, now, n) is Err,
    ensures
        inserted(db, inputs, fresh, target, now, m) == inserted(
            db,
            inputs,
            fresh,
            target,
            now,
            n,
        ),
    decreases m,
{
    if n < m {
        lemma_inserted_err(db, inputs, fresh, target, now, n, (m - 1) as nat);
    }
}

/// Create blocks one after another.
pub fn insert_blocks(
    db: ContentDb,
    inputs: Vec<CreateBlock>,
    fresh: &FreshIds,
    target: usize,
    now: Timestamp,
) -> (r: Result<(ContentDb, Vec<Block>), CoreError>)
    requires
        enough(*fresh, ordering::views(inputs@), target),
    ensures
        match r {
            Ok((after, made)) => inserted(
                db@,
                ordering::views(inputs@),
                *fresh,
                target,
                now,
                inputs@.len(),
            ) == Ok::<Inserted, CoreFault>(
                Inserted { db: after@, made: ordering::views(made@) },
            ),
            Err(e) => inserted(
                db@,
                ordering::views(inputs@),
                *fresh,
                target,
                now,
                inputs@.len(),
            ) == Err::<Inserted, CoreFault>(e@),
        },
{
    let ghost start = db@;
    let ghost given = inputs@;
    let ghost all = ordering::views(given);
    let mut current = db;
    let mut made: Vec<Block> = Vec::new();
    let mut i: usize = 0;
    proof {
        assert(ordering::views(made@) =~= Seq::empty());
    }
    let total = inputs.len();
    for p in it: inputs
        invariant
            it.seq() == given,
            given == inputs@,
            all == ordering::views(given),
            start == db@,
            total == all.len(),
            i == it.index(),
            enough(*fresh, all, target),
            inserted(start, all, *fresh, target, now, i as nat) == Ok::<Inserted, CoreFault>(
                Inserted { db: current@, made: ordering::views(made@) },
            ),
    {
        proof {
            assert(all[i as int] == p@);
            assert(fresh.chunks@[i as int]@.len() >= blocks::chunk_count(
                all[i as int].text,
                target,
            ));
        }
        let id = fresh.blocks[i];
        match blocks::create_block(current, p, id, &fresh.chunks[i], target, now) {
            Ok((next, block, _)) => {
                let ghost before = made@;
                let ghost row = block@;
                made.push(block);
                proof {
                    assert(ordering::views(made@) =~= ordering::views(before).push(row));
                }
                current = next;
            },
            Err(e) => {
                proof {
                    lemma_inserted_err(
                        start,
                        all,
                        *fresh,
                        target,
                        now,
                        (i + 1) as nat,
                        all.len(),
                    );
                }
                return Err(e);
            },
        }
        i += 1;
    }
    Ok((current, made))
}

/// The path of an entry's file below the knowledge root.
pub open spec fn path_of(id: Id) -> Seq<char> {
    "entries/"@ + ids::text_of_id(id) + "/entry.nomai"@
}

/// The path of an entry's file below the knowledge root.
pub fn entry_path(id: Id) -> (s: String)
    ensures
        s@ == path_of(id),
{
    let t = ids::id_text(id);
    text::text3("entries/", t.as_str(), "/entry.nomai")
}

/// The row of a new entry.
pub open spec fn new_row(p: CreateEntry, id: Id, mtime: Seq<char>, now: Timestamp) -> EntryRowSpec {
    EntryRowSpec {
        id,
        title: p.title@,
        tags: tags_given(p.tags),
        attrs: attrs::given(p.attrs),
        source: tables::opt_text(p.source),
        fs_path: Some(path_of(id)),
        fs_mtime: Some(mtime),
        created_at: now,
        updated_at: now,
    }
}

/// The block at `i` of an entry to create.
pub open spec fn block_at(blocks: Seq<BlockInput>, id: Id, i: int) -> CreateSpec {
    CreateSpec {
        entry_id: id,
        ordinal: i as u32,
        type_: blocks[i].type_@,
        text: blocks[i].text@,
        attrs: attrs::given(blocks[i].attrs),
    }
}

/// The blocks of an entry to create.
pub open spec fn blocks_at(blocks: Seq<BlockInput>, id: Id) -> Seq<CreateSpec> {
    Seq::new(blocks.len(), |i: int| block_at(blocks, id, i))
}

/// The index with one more entry, without blocks.
pub open spec fn with_entry(db: ContentSpec, row: EntryRowSpec) -> ContentSpec {
    ContentSpec { entries: db.entries.push(row), ..db }
}

/// The head of an event about an entry.
pub open spec fn entry_event(type_: Seq<char>, id: Id) -> HeadSpec {
    HeadSpec { type_, target_type: "entry"@, target_id: id }
}

fn push_entry(db: ContentDb, row: EntryRow) -> (r: ContentDb)
    ensures
        r@ == with_entry(db@, row@),
{
    let ContentDb { entries, blocks, chunks, links } = db;
    let mut entries = entries;
    let ghost old_entries = entries@;
    let ghost view = row@;
    entries.push(row);
    proof {
        assert(ordering::views(entries@) =~= ordering::views(old_entries).push(view));
    }
    ContentDb { entries, blocks, chunks, links }
}

fn inputs_of(blocks: Vec<BlockInput>, id: Id) -> (r: Vec<CreateBlock>)
    ensures
        ordering::views(r@) == blocks_at(blocks@, id),
{
    let ghost all = blocks@;
    let ghost rows = blocks_at(all, id);
    let total = blocks.len();
    let mut out: Vec<CreateBlock> = Vec::new();
    let mut i: usize = 0;
    proof {
        assert(ordering::views(out@) =~= rows.take(0));
    }
    for b in it: blocks
        invariant
            it.seq() == all,
            rows == blocks_at(all, id),
            total == all.len(),
            i == it.index(),
            ordering::views(out@) == rows.take(i as int),
    {
        let BlockInput { type_, text, attrs } = b;
        let ghost before = out@;
        let input = CreateBlock { entry_id: id, ordinal: i as u32, type_, text, attrs };
        let ghost row = input@;
        out.push(input);
        proof {
            assert(row == rows[i as int]);
            assert(ordering::views(out@) =~= ordering::views(before).push(row));
            assert(rows.take(i + 1) =~= rows.take(i as int).push(rows[i as int]));
        }
        i += 1;
    }
    proof {
        assert(rows.take(i as int) =~= rows);
    }
    out
}

/// Put an entry whose file has been written into the index. `mtime` is when
/// the file was written, as text. Gives the entry with its blocks, whose
/// snapshot is the payload of the event.
pub fn create_entry(
    db: ContentDb,
    p: CreateEntry,
    id: Id,
    mtime: String,
    fresh: &FreshIds,
    target: usize,
    now: Timestamp,
) -> (r: Result<(ContentDb, Entry, EventHead), CoreError>)
    requires
        enough(*fresh, blocks_at(p.blocks@, id), target),
    ensures
        ({
            let row = new_row(p, id, mtime@, now);
            let made = inserted(
                with_entry(db@, row),
                blocks_at(p.blocks@, id),
                *fresh,
                target,
                now,
                p.blocks@.len(),
            );
            match r {
                Ok((after, entry, event)) => {
                    &&& create_fault(p) is None
                    &&& made is Ok
                    &&& after@ == made->Ok_0.db
                    &&& entry@ == row.with_blocks(made->Ok_0.made)
                    &&& event@ == entry_event("entry.created"@, id)
                },
                Err(e) => match create_fault(p) {
                    Some(f) => e@ == f,
                    None => made == Err::<Inserted, CoreFault>(e@),
                },
            }
        }),
{
    let ghost asked = p;
    match document_of(&p, id, now) {
        Ok(_) => {},
        Err(e) => {
            return Err(e);
        },
    }
    let CreateEntry { title, blocks, tags, attrs, source } = p;
    let row = EntryRow {
        id,
        title,
        tags: copy_tags(&tags),
        attrs: attrs::or_empty(attrs),
        source,
        fs_path: Some(entry_path(id)),
        fs_mtime: Some(mtime),
        created_at: now,
        updated_at: now,
    };
    proof {
        assert(row@ == new_row(asked, id, mtime@, now));
    }
    let snapshot = row.to_entry(Vec::new());
    let with_row = push_entry(db, row);
    let inputs = inputs_of(blocks, id);
    match insert_blocks(with_row, inputs, fresh, target, now) {
        Ok((after, made)) => {
            let mut entry = snapshot;
            entry.blocks = made;
            Ok(
                (
                    after,
                    entry,
                    EventHead { type_: "entry.created", target_type: "entry", target_id: id },
                ),
            )
        },
        Err(e) => Err(e),
    }
}

/// The entry may be seen: it exists, and is no benchmark fixture unless those
/// are shown.
pub open spec fn visible(db: ContentSpec, id: Id, include_benchmark: bool) -> bool {
    tables::row_of::<EntryRow>(db.entries, id) matches Some(i) && (include_benchmark
        || !visibility::is_benchmark(db.entries[i].attrs))
}

/// The entry with its blocks.
pub open spec fn entry_of(db: ContentSpec, id: Id) -> EntrySpec {
    db.entries[tables::row_of::<EntryRow>(db.entries, id)->0].with_blocks(
        blocks::blocks_of(db.blocks, id),
    )
}

/// Get an entry with its blocks.
pub fn get_entry(db: &ContentDb, id: Id, include_benchmark: bool) -> (r: Result<Entry, CoreError>)
    ensures
        match r {
            Ok(e) => visible(db@, id, include_benchmark) && e@ == entry_of(db@, id),
            Err(e) => !visible(db@, id, include_benchmark) && e@ == CoreFault::NotFound(id),
        },
{
    match tables::find_row(&db.entries, id) {
        Some(i) => {
            proof {
                assert(db@.entries[i as int] == db.entries@[i as int]@);
            }
            if !include_benchmark && visibility::benchmark(&db.entries[i].attrs) {
                return Err(CoreError::NotFound(id));
            }
            let items = blocks::copy_blocks(&db.blocks, id);
            Ok(db.entries[i].to_entry(items))
        },
        None => Err(CoreError::NotFound(id)),
    }
}

/// The row after a change.
pub open spec fn changed(row: EntryRowSpec, p: UpdateEntry, now: Timestamp) -> EntryRowSpec {
    EntryRowSpec {
        title: match p.title {
            Some(t) => t@,
            None => row.title,
        },
        tags: match p.tags {
            Some(t) => text::texts(t@),
            None => row.tags,
        },
        attrs: match p.attrs {
            Some(a) => a@,
            None => row.attrs,
        },
        source: match p.source {
            Some(s) => tables::opt_text(s),
            None => row.source,
        },
        updated_at: now,
        ..row
    }
}

/// Why an entry cannot be changed.
pub open spec fn update_fault(db: ContentSpec, id: Id, p: UpdateEntry) -> Option<CoreFault> {
    if !db.has_entry(id) {
        Some(CoreFault::NotFound(id))
    } else if p.attrs is Some && !(p.attrs->0@ is Object) {
        Some(blocks::attrs_fault())
    } else {
        None
    }
}

/// The index after an entry's change.
pub open spec fn with_update(db: ContentSpec, id: Id, p: UpdateEntry, now: Timestamp) -> ContentSpec {
    let i = tables::row_of::<EntryRow>(db.entries, id)->0;
    ContentSpec { entries: db.entries.update(i, changed(db.entries[i], p, now)), ..db }
}

/// Change an entry's title, tags, attributes or source. What is not given
/// stays, and so do its blocks.
pub fn update_entry(db: ContentDb, id: Id, p: UpdateEntry, now: Timestamp) -> (r: Result<
    (ContentDb, Entry, EventHead),
    CoreError,
>)
    ensures
        match r {
            Ok((after, entry, event)) => {
                let i = tables::row_of::<EntryRow>(db@.entries, id)->0;
                &&& update_fault(db@, id, p) is None
                &&& after@ == with_update(db@, id, p, now)
                &&& entry@ == changed(db@.entries[i], p, now).with_blocks(
                    blocks::blocks_of(db@.blocks, id),
                )
                &&& event@ == entry_event("entry.updated"@, id)
            },
            Err(e) => update_fault(db@, id, p) == Some(e@),
        },
{
    let ghost start = db@;
    let ghost asked = p;
    let at = match tables::find_row(&db.entries, id) {
        Some(i) => i,
        None => {
            return Err(CoreError::NotFound(id));
        },
    };
    let UpdateEntry { title, tags, attrs, source } = p;
    if let Some(a) = &attrs {
        if !a.is_object() {
            return Err(CoreError::validation("attrs must be a JSON object"));
        }
    }
    let items = blocks::copy_blocks(&db.blocks, id);
    let ContentDb { entries, blocks, chunks, links } = db;
    let mut entries = entries;
    let ghost old_entries = entries@;
    proof {
        assert(start.entries[at as int] == old_entries[at as int]@);
    }
    let old = &entries[at];
    let row = EntryRow {
        id: old.id,
        title: match title {
            Some(t) => t,
            None => old.title.clone(),
        },
        tags: match tags {
            Some(t) => t,
            None => tables::copy_texts(&old.tags),
        },
        attrs: match attrs {
            Some(a) => a,
            None => old.attrs.copy(),
        },
        source: match source {
            Some(s) => s,
            None => tables::copy_opt(&old.source),
        },
        fs_path: tables::copy_opt(&old.fs_path),
        fs_mtime: tables::copy_opt(&old.fs_mtime),
        created_at: old.created_at,
        updated_at: now,
    };
    let ghost view = row@;
    proof {
        assert(view == changed(start.entries[at as int], asked, now));
    }
    let entry = row.to_entry(items);
    entries.set(at, row);
    proof {
        assert(ordering::views(entries@) =~= ordering::views(old_entries).update(
            at as int,
            view,
        ));
    }
    let after = ContentDb { entries, blocks, chunks, links };
    Ok((after, entry, EventHead { type_: "entry.updated", target_type: "entry", target_id: id }))
}

/// The identifiers of an entry's blocks, of the first `n`.
pub open spec fn block_ids(blocks: Seq<BlockRow>, entry: Id, n: nat) -> Seq<Id>
    decreases n,
{
    if n == 0 {
        Seq::empty()
    } else {
        let before = block_ids(blocks, entry, (n - 1) as nat);
        if blocks[n - 1].entry_id == entry {
            before.push(blocks[n - 1].id)
        } else {
            before
        }
    }
}

/// The link has the entry at neither end.
pub open spec fn elsewhere(id: Id) -> spec_fn(LinkRow) -> bool {
    |l: LinkRow| l.source_id != id && l.target_id != id
}

/// The index without the entry's blocks, their chunks, and the entry's links.
pub open spec fn without_parts(db: ContentSpec, id: Id) -> ContentSpec {
    ContentSpec {
        blocks: content::unowned::<Block>(db.blocks, seq![id]),
        chunks: content::unowned::<Chunk>(db.chunks, block_ids(db.blocks, id, db.blocks.len())),
        links: db.links.filter(elsewhere(id)),
        ..db
    }
}

/// The index without the entry and all that belongs to it.
pub open spec fn without_entry(db: ContentSpec, id: Id) -> ContentSpec {
    match tables::row_of::<EntryRow>(db.entries, id) {
        Some(i) => ContentSpec { entries: db.entries.remove(i), ..without_parts(db, id) },
        None => db,
    }
}

fn find_block_ids(blocks: &Vec<Block>, entry: Id) -> (r: Vec<Id>)
    ensures
        r@ == block_ids(ordering::views(blocks@), entry, blocks@.len()),
{
    let ghost rows = ordering::views(blocks@);
    let mut out: Vec<Id> = Vec::new();
    let mut i: usize = 0;
    while i < blocks.len()
        invariant
            i <= blocks.len(),
            rows == ordering::views(blocks@),
            out@ == block_ids(rows, entry, i as nat),
        decreases blocks.len() - i,
    {
        proof {
            assert(rows[i as int] == blocks@[i as int]@);
        }
        if blocks[i].entry_id == entry {
            out.push(blocks[i].id);
        }
        i += 1;
    }
    out
}

fn drop_links(links: Vec<Link>, id: Id) -> (r: Vec<Link>)
    ensures
        ordering::views(r@) == ordering::views(links@).filter(elsewhere(id)),
{
    let ghost keep = elsewhere(id);
    let ghost all = links@;
    let ghost held = ordering::views(all);
    let mut out: Vec<Link> = Vec::new();
    proof {
        assert(held.take(0).filter(keep) =~= Seq::empty()) by {
            reveal(Seq::filter);
        }
        assert(ordering::views(out@) =~= Seq::empty());
    }
    for l in it: links
        invariant
            it.seq() == all,
            held == ordering::views(all),
            keep == elsewhere(id),
            ordering::views(out@) == held.take(it.index() as int).filter(keep),
    {
        proof {
            let i = it.index() as int;
            assert(held[i] == l@);
            signals::lemma_filter_take(held, i, keep);
        }
        if l.source_id != id && l.target_id != id {
            let ghost before = out@;
            let ghost kept = l@;
            out.push(l);
            proof {
                assert(ordering::views(out@) =~= ordering::views(before).push(kept));
            }
        }
    }
    proof {
        assert(held.take(held.len() as int) =~= held);
    }
    out
}

/// Remove an entry and all that belongs to it. Nothing happens where there is
/// no such entry.
pub fn remove_entry(db: ContentDb, id: Id) -> (r: ContentDb)
    ensures
        r@ == without_entry(db@, id),
{
    match tables::find_row(&db.entries, id) {
        Some(at) => {
            let ContentDb { entries, blocks, chunks, links } = db;
            let mut entries = entries;
            let ghost old_entries = entries@;
            let _ = entries.remove(at);
            let own = find_block_ids(&blocks, id);
            let mut gone: Vec<Id> = Vec::new();
            gone.push(id);
            proof {
                assert(gone@ =~= seq![id]);
                assert(ordering::views(entries@) =~= ordering::views(old_entries).remove(
                    at as int,
                ));
                assert(ordering::views(blocks@).len() == blocks@.len());
            }
            ContentDb {
                entries,
                blocks: content::drop_owned(blocks, &gone),
                chunks: content::drop_owned(chunks, &own),
                links: drop_links(links, id),
            }
        },
        None => db,
    }
}

/// Delete an entry, its blocks, their chunks, and the links to and from it.
/// Gives the entry as it was.
pub fn delete_entry(db: ContentDb, id: Id) -> (r: Result<(ContentDb, Entry, EventHead), CoreError>)
    ensures
        match r {
            Ok((after, entry, event)) => {
                &&& db@.has_entry(id)
                &&& entry@ == entry_of(db@, id)
                &&& after@ == without_entry(db@, id)
                &&& event@ == entry_event("entry.deleted"@, id)
            },
            Err(e) => !db@.has_entry(id) && e@ == CoreFault::NotFound(id),
        },
{
    let entry = match get_entry(&db, id, true) {
        Ok(e) => e,
        Err(e) => {
            return Err(e);
        },
    };
    Ok(
        (
            remove_entry(db, id),
            entry,
            EventHead { type_: "entry.deleted", target_type: "entry", target_id: id },
        ),
    )
}

/// A text without the line breaks at its end.
pub open spec fn trimmed(s: Seq<char>) -> Seq<char>
    decreases s.len(),
{
    if s.len() > 0 && s.last() == '\n' {
        trimmed(s.drop_last())
    } else {
        s
    }
}

fn trim_end(s: &str) -> (r: String)
    ensures
        r@ == trimmed(s@),
{
    let chars = text::chars_of(s);
    let mut n: usize = chars.len();
    proof {
        assert(s@.take(n as int) =~= s@);
    }
    while n > 0 && chars[n - 1] == '\n'
        invariant
            n <= chars.len(),
            chars@ == s@,
            trimmed(s@) == trimmed(s@.take(n as int)),
        decreases n,
    {
        proof {
            assert(s@.take(n as int).drop_last() =~= s@.take(n - 1));
        }
        n -= 1;
    }
    let r = text::string_of(&chars, 0, n);
    proof {
        assert(s@.subrange(0, n as int) =~= s@.take(n as int));
    }
    r
}

/// The row of an entry that its file describes.
pub open spec fn row_of_doc(doc: DocSpec, id: Id, mtime: Seq<char>) -> EntryRowSpec {
    EntryRowSpec {
        id,
        title: doc.title,
        tags: doc.tags,
        attrs: AttrsSpec::Object(doc.attrs),
        source: doc.source,
        fs_path: Some(path_of(id)),
        fs_mtime: Some(mtime),
        created_at: doc.created_at,
        updated_at: doc.updated_at,
    }
}

/// The blocks that a file describes.
pub open spec fn blocks_of_doc(doc: DocSpec, id: Id) -> Seq<CreateSpec> {
    Seq::new(
        doc.blocks.len(),
        |i: int|
            CreateSpec {
                entry_id: id,
                ordinal: i as u32,
                type_: doc.blocks[i].type_.name(),
                text: trimmed(doc.blocks[i].text),
                attrs: AttrsSpec::Object(doc.blocks[i].attrs),
            },
    )
}

/// The index after an entry was read anew from its file, or why it was not.
pub open spec fn reindexed(
    db: ContentSpec,
    doc: DocSpec,
    id: Id,
    mtime: Seq<char>,
    fresh: FreshIds,
    target: usize,
    now: Timestamp,
) -> Result<Inserted, CoreFault> {
    inserted(
        with_entry(without_entry(db, id), row_of_doc(doc, id, mtime)),
        blocks_of_doc(doc, id),
        fresh,
        target,
        now,
        doc.blocks.len(),
    )
}

fn inputs_of_doc(doc: &NomaiDoc, id: Id) -> (r: Vec<CreateBlock>)
    ensures
        ordering::views(r@) == blocks_of_doc(doc@, id),
{
    let ghost rows = blocks_of_doc(doc@, id);
    let mut out: Vec<CreateBlock> = Vec::new();
    let mut i: usize = 0;
    proof {
        assert(ordering::views(out@) =~= rows.take(0));
    }
    while i < doc.blocks.len()
        invariant
            i <= doc.blocks.len(),
            rows == blocks_of_doc(doc@, id),
            rows.len() == doc.blocks.len(),
            ordering::views(out@) == rows.take(i as int),
        decreases doc.blocks.len() - i,
    {
        let b = &doc.blocks[i];
        proof {
            assert(doc@.blocks[i as int] == b@);
        }
        let ghost before = out@;
        let input = CreateBlock {
            entry_id: id,
            ordinal: i as u32,
            type_: b.type_.as_str().to_owned(),
            text: trim_end(b.text.as_str()),
            attrs: Some(AttrsValue::Object(b.attrs.copy())),
        };
        let ghost row = input@;
        out.push(input);
        proof {
            assert(row == rows[i as int]);
            assert(ordering::views(out@) =~= ordering::views(before).push(row));
            assert(rows.take(i + 1) =~= rows.take(i as int).push(rows[i as int]));
        }
        i += 1;
    }
    proof {
        assert(rows.take(i as int) =~= rows);
    }
    out
}

/// Read an entry anew from its file: what the index held of it goes, and what
/// the file describes comes. The entry keeps the times that the file gives;
/// its blocks are made now.
pub fn reindex_entry(
    db: ContentDb,
    doc: &NomaiDoc,
    id: Id,
    mtime: String,
    fresh: &FreshIds,
    target: usize,
    now: Timestamp,
) -> (r: Result<(ContentDb, Vec<Block>), CoreError>)
    requires
        enough(*fresh, blocks_of_doc(doc@, id), target),
    ensures
        match r {
            Ok((after, made)) => reindexed(db@, doc@, id, mtime@, *fresh, target, now) == Ok::<
                Inserted,
                CoreFault,
            >(Inserted { db: after@, made: ordering::views(made@) }),
            Err(e) => reindexed(db@, doc@, id, mtime@, *fresh, target, now) == Err::<
                Inserted,
                CoreFault,
            >(e@),
        },
{
    let row = EntryRow {
        id,
        title: doc.title.clone(),
        tags: tables::copy_texts(&doc.tags),
        attrs: AttrsValue::Object(doc.attrs.copy()),
        source: tables::copy_opt(&doc.source),
        fs_path: Some(entry_path(id)),
        fs_mtime: Some(mtime),
        created_at: doc.created_at,
        updated_at: doc.updated_at,
    };
    proof {
        assert(row@ == row_of_doc(doc@, id, mtime@));
    }
    let cleared = remove_entry(db, id);
    let with_row = push_entry(cleared, row);
    let inputs = inputs_of_doc(doc, id);
    proof {
        assert(ordering::views(inputs@).len() == inputs@.len());
    }
    insert_blocks(with_row, inputs, fresh, target, now)
}

} // verus!
