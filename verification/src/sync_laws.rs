//! What synchronising leaves: an index that mirrors the files.
use vstd::prelude::*;

use crate::block_model::{Block, BlockRow, CreateSpec};
use crate::content::{self, ContentSpec, Owned};
use crate::content_laws;
use crate::entries::{self, FreshIds};
use crate::file_laws;
use crate::ids::Id;
use crate::model::{EntryRow, EntryRowSpec, EntrySpec};
use crate::nomai_format::DocSpec;
use crate::sync::{self, Bucket, FoundFile, IndexedFile};
use crate::tables::{self, HasId};
use crate::time::{self, Timestamp};

verus! {

/// An entry that is found more than once, under two spellings of its
/// identifier, is found with one time.
pub open spec fn one_time_each(fs: Seq<FoundFile>) -> bool {
    forall|i: int, j: int|
        0 <= i < j < fs.len() && (#[trigger] fs[i]).id == (#[trigger] fs[j]).id ==> fs[i].mtime
            == fs[j].mtime
}

/// The entry has a file that can be read.
pub open spec fn is_readable(fs: Seq<FoundFile>, id: Id) -> bool {
    exists|i: int| 0 <= i < fs.len() && (#[trigger] fs[i]).id == id && fs[i].mtime is Some
}

proof fn lemma_after_steps(
    index: Map<Id, Option<Timestamp>>,
    fs: Seq<FoundFile>,
    steps: Seq<(Id, Bucket)>,
    n: nat,
)
    requires
        n <= fs.len(),
        one_time_each(fs),
        forall|i: int, j: int|
            0 <= i < j < fs.len() && (#[trigger] fs[i]).id == (#[trigger] fs[j]).id ==> steps[i].1
                == steps[j].1,
    ensures
        ({
            let after = sync::after_steps(index, fs, steps, n);
            &&& forall|id: Id|
                (forall|i: int| 0 <= i < n ==> (#[trigger] fs[i]).id != id)
                    ==> #[trigger] after.contains_key(id) == index.contains_key(id) && (
                index.contains_key(id) ==> after[id] == index[id])
            &&& forall|i: int|
                0 <= i < n ==> {
                    let id = (#[trigger] fs[i]).id;
                    match steps[i].1 {
                        Bucket::Added | Bucket::Updated => after.contains_key(id) && after[id]
                            == fs[i].mtime,
                        Bucket::Removed => !after.contains_key(id),
                        Bucket::Unchanged => after.contains_key(id) == index.contains_key(id) && (
                        index.contains_key(id) ==> after[id] == index[id]),
                    }
                }
        }),
    decreases n,
{
    if n > 0 {
        let m = (n - 1) as nat;
        lemma_after_steps(index, fs, steps, m);
        let before = sync::after_steps(index, fs, steps, m);
        let after = sync::after_steps(index, fs, steps, n);
        let file = fs[n - 1];
        assert(steps[n - 1].1 == Bucket::Unchanged ==> before.contains_key(file.id)
            == index.contains_key(file.id) && (index.contains_key(file.id) ==> before[file.id]
            == index[file.id])) by {
            if exists|i: int| 0 <= i < m && (#[trigger] fs[i]).id == file.id {
                let i = choose|i: int| 0 <= i < m && (#[trigger] fs[i]).id == file.id;
                assert(steps[i].1 == steps[n - 1].1);
            } else {
                assert(before.contains_key(file.id) == index.contains_key(file.id));
            }
        }
        assert forall|id: Id|
            (forall|i: int| 0 <= i < n ==> (#[trigger] fs[i]).id != id) implies
            #[trigger] after.contains_key(id) == index.contains_key(id) && (index.contains_key(id)
            ==> after[id] == index[id]) by {
            assert(fs[n - 1].id != id);
            assert(before.contains_key(id) == index.contains_key(id));
        }
        assert forall|i: int| 0 <= i < n implies {
            let id = (#[trigger] fs[i]).id;
            match steps[i].1 {
                Bucket::Added | Bucket::Updated => after.contains_key(id) && after[id]
                    == fs[i].mtime,
                Bucket::Removed => !after.contains_key(id),
                Bucket::Unchanged => after.contains_key(id) == index.contains_key(id) && (
                index.contains_key(id) ==> after[id] == index[id]),
            }
        } by {
            if i < m && fs[i].id == file.id {
                assert(steps[i].1 == steps[n - 1].1 && fs[i].mtime == file.mtime);
            }
        }
    }
}

proof fn lemma_after_gone(index: Map<Id, Option<Timestamp>>, gone: Seq<Id>, n: nat)
    requires
        n <= gone.len(),
    ensures
        ({
            let after = sync::after_gone(index, gone, n);
            forall|id: Id|
                {
                    &&& #[trigger] after.contains_key(id) <==> index.contains_key(id)
                        && !gone.take(n as int).contains(id)
                    &&& after.contains_key(id) ==> after[id] == index[id]
                }
        }),
    decreases n,
{
    if n > 0 {
        let m = (n - 1) as nat;
        lemma_after_gone(index, gone, m);
        let before = sync::after_gone(index, gone, m);
        let after = sync::after_gone(index, gone, n);
        let (few, more) = (gone.take(m as int), gone.take(n as int));
        assert(more =~= few.push(gone[n - 1]));
        assert forall|id: Id|
            {
                &&& #[trigger] after.contains_key(id) <==> index.contains_key(id) && !more.contains(
                    id,
                )
                &&& after.contains_key(id) ==> after[id] == index[id]
            } by {
            assert(before.contains_key(id) <==> index.contains_key(id) && !few.contains(id));
            if few.contains(id) {
                let k = choose|k: int| 0 <= k < few.len() && few[k] == id;
                assert(more[k] == id);
            }
            if id == gone[n - 1] {
                assert(more[n - 1] == id);
            }
            if more.contains(id) && id != gone[n - 1] {
                let k = choose|k: int| 0 <= k < more.len() && more[k] == id;
                assert(few[k] == id);
            }
        }
    } else {
        assert(gone.take(0) =~= Seq::empty());
    }
}

proof fn lemma_missing(fs: Seq<FoundFile>, db: Seq<IndexedFile>, id: Id, n: nat)
    requires
        n <= db.len(),
    ensures
        sync::missing(fs, db, n).contains(id) <==> !sync::is_found(fs, id) && exists|i: int|
            0 <= i < n && (#[trigger] db[i]).id == id,
    decreases n,
{
    if n > 0 {
        let m = (n - 1) as nat;
        lemma_missing(fs, db, id, m);
        let before = sync::missing(fs, db, m);
        let after = sync::missing(fs, db, n);
        if before.contains(id) {
            let k = choose|k: int| 0 <= k < before.len() && before[k] == id;
            assert(after[k] == id);
        }
        if db[n - 1].id == id && !sync::is_found(fs, id) {
            assert(after[before.len() as int] == id);
        }
        if after.contains(id) {
            let k = choose|k: int| 0 <= k < after.len() && after[k] == id;
            if k < before.len() {
                assert(before[k] == id);
            } else {
                assert(db[n - 1].id == id);
            }
        }
    }
}

proof fn lemma_counts(steps: Seq<(Id, Bucket)>, n: nat)
    ensures
        sync::count_of(steps, Bucket::Added, n) + sync::count_of(steps, Bucket::Updated, n)
            + sync::count_of(steps, Bucket::Removed, n) + sync::count_of(
            steps,
            Bucket::Unchanged,
            n,
        ) == n,
    decreases n,
{
    if n > 0 {
        lemma_counts(steps, (n - 1) as nat);
    }
}

/// As many entries are read anew as are added and updated.
pub proof fn law_read_anew_are_added_or_updated(steps: Seq<(Id, Bucket)>, n: nat)
    ensures
        sync::read_anew(steps, n).len() == sync::count_of(steps, Bucket::Added, n)
            + sync::count_of(steps, Bucket::Updated, n),
    decreases n,
{
    if n > 0 {
        law_read_anew_are_added_or_updated(steps, (n - 1) as nat);
    }
}

/// Once the plan of a synchronisation was carried out, the index mirrors the
/// files: its entries are those whose file can be read. A second
/// synchronisation of the same files then finds nothing to do.
pub proof fn law_sync_settles(
    fs: Seq<FoundFile>,
    db: Seq<IndexedFile>,
    after: Seq<IndexedFile>,
)
    requires
        one_time_each(fs),
        sync::index_of(after) == sync::carried_out(fs, db),
    ensures
        sync::mirrors(fs, after),
        forall|id: Id|
            #[trigger] sync::index_of(after).contains_key(id) <==> is_readable(fs, id),
        ({
            let steps = sync::steps_of(fs, after);
            &&& sync::count_of(steps, Bucket::Added, steps.len()) == 0
            &&& sync::count_of(steps, Bucket::Updated, steps.len()) == 0
            &&& sync::count_of(steps, Bucket::Removed, steps.len()) == 0
            &&& sync::missing(fs, after, after.len()) == Seq::<Id>::empty()
            &&& sync::read_anew(steps, steps.len()) == Seq::<Id>::empty()
        }),
{
    let steps = sync::steps_of(fs, db);
    let gone = sync::missing(fs, db, db.len());
    let first = sync::index_of(db);
    let stepped = sync::after_steps(first, fs, steps, fs.len());
    let last = sync::index_of(after);
    assert forall|i: int, j: int|
        0 <= i < j < fs.len() && (#[trigger] fs[i]).id == (#[trigger] fs[j]).id implies steps[i].1
        == steps[j].1 by {
        assert(fs[i].mtime == fs[j].mtime);
    }
    lemma_after_steps(first, fs, steps, fs.len());
    lemma_after_gone(stepped, gone, gone.len());
    assert(gone.take(gone.len() as int) =~= gone);
    assert forall|i: int| 0 <= i < fs.len() implies match (#[trigger] fs[i]).mtime {
        Some(t) => last.contains_key(fs[i].id) && last[fs[i].id] == Some(t),
        None => !last.contains_key(fs[i].id),
    } by {
        let id = fs[i].id;
        assert(sync::is_found(fs, id));
        lemma_missing(fs, db, id, db.len());
        assert(steps[i].1 == sync::bucket_of(sync::known(db, id), fs[i].mtime));
        assert(first.contains_key(id) == (sync::known(db, id) is Some));
        assert(last.contains_key(id) == stepped.contains_key(id));
    }
    assert forall|id: Id| #[trigger] last.contains_key(id) implies is_readable(fs, id) by {
        lemma_missing(fs, db, id, db.len());
        if sync::is_found(fs, id) {
            let i = choose|i: int| 0 <= i < fs.len() && (#[trigger] fs[i]).id == id;
            assert(fs[i].mtime is Some);
        } else {
            assert(stepped.contains_key(id) == first.contains_key(id));
            sync::lemma_indexed(db, id, db.len());
        }
    }
    assert forall|id: Id| is_readable(fs, id) implies #[trigger] last.contains_key(id) by {
        let i = choose|i: int|
            0 <= i < fs.len() && (#[trigger] fs[i]).id == id && fs[i].mtime is Some;
        assert(last.contains_key(fs[i].id));
    }
    assert forall|i: int| 0 <= i < fs.len() implies match (#[trigger] fs[i]).mtime {
        Some(t) => sync::known(after, fs[i].id) matches Some(Some(m)) && m.time == Some(t),
        None => sync::known(after, fs[i].id) is None,
    } by {
        assert(last.contains_key(fs[i].id) == (sync::known(after, fs[i].id) is Some));
    }
    assert forall|i: int| 0 <= i < after.len() implies sync::is_found(
        fs,
        (#[trigger] after[i]).id,
    ) by {
        let id = after[i].id;
        sync::lemma_indexed(after, id, after.len());
        assert(last.contains_key(id));
        let k = choose|k: int|
            0 <= k < fs.len() && (#[trigger] fs[k]).id == id && fs[k].mtime is Some;
        assert(fs[k].id == id);
    }
    sync::law_second_sync_changes_nothing(fs, after, fs.len());
    lemma_counts(sync::steps_of(fs, after), fs.len());
}

/// The entries of the index, each with the time that its recorded text reads
/// as.
pub open spec fn recorded(db: ContentSpec) -> Map<Id, Option<Timestamp>> {
    Map::new(
        |id: Id| db.has_entry(id),
        |id: Id| time_in(db.entries[tables::row_of::<EntryRow>(db.entries, id)->0]),
    )
}

/// The time that an entry's recorded text reads as.
pub open spec fn time_in(row: EntryRowSpec) -> Option<Timestamp> {
    match row.fs_mtime {
        Some(s) => time::time_of_text(s),
        None => None,
    }
}

proof fn lemma_same_map(a: Map<Id, Option<Timestamp>>, b: Map<Id, Option<Timestamp>>)
    requires
        forall|id: Id|
            #[trigger] a.contains_key(id) == b.contains_key(id) && (a.contains_key(id) ==> a[id]
                == b[id]),
    ensures
        a == b,
{
    assert forall|id: Id| a.dom().contains(id) == b.dom().contains(id) by {
        assert(a.contains_key(id) == b.contains_key(id));
    }
    assert(a =~= b);
}

/// A comparison works on what the index has recorded.
pub proof fn law_rows_hold_what_is_recorded(db: ContentSpec, files: Seq<IndexedFile>)
    requires
        sync::are_rows_for(files, db.entries),
    ensures
        sync::index_of(files) == recorded(db),
{
    let (a, b) = (sync::index_of(files), recorded(db));
    assert forall|id: Id|
        #[trigger] a.contains_key(id) == b.contains_key(id) && (a.contains_key(id) ==> a[id]
            == b[id]) by {
        lemma_same_row(db, files, id, files.len());
        if db.has_entry(id) {
            let i = tables::row_of::<EntryRow>(db.entries, id)->0;
            tables::lemma_row_at::<EntryRow>(db.entries, id, db.entries.len());
            assert(sync::is_row_for(files[i], db.entries[i]));
        }
    }
    lemma_same_map(a, b);
}

proof fn lemma_same_row(db: ContentSpec, files: Seq<IndexedFile>, id: Id, n: nat)
    requires
        sync::are_rows_for(files, db.entries),
        n <= files.len(),
    ensures
        sync::indexed_at(files, id, n) == tables::row_at::<EntryRow>(db.entries, id, n),
    decreases n,
{
    if n > 0 {
        lemma_same_row(db, files, id, (n - 1) as nat);
        assert(sync::is_row_for(files[n - 1], db.entries[n - 1]));
    }
}

proof fn lemma_at(rows: Seq<EntryRowSpec>, i: int)
    requires
        tables::distinct::<EntryRow>(rows),
        0 <= i < rows.len(),
    ensures
        tables::row_of::<EntryRow>(rows, rows[i].id) == Some(i),
{
    let id = EntryRow::id_of(rows[i]);
    tables::lemma_row_at::<EntryRow>(rows, id, rows.len());
    let k = tables::row_of::<EntryRow>(rows, id)->0;
    if k != i {
        assert(EntryRow::id_of(rows[k]) == EntryRow::id_of(rows[i]));
    }
}

/// Removing an entry forgets what was recorded of it, and of it alone.
pub proof fn law_removing_forgets_an_entry(db: ContentSpec, id: Id)
    requires
        tables::distinct::<EntryRow>(db.entries),
    ensures
        recorded(entries::without_entry(db, id)) == recorded(db).remove(id),
        tables::distinct::<EntryRow>(entries::without_entry(db, id).entries),
{
    let after = entries::without_entry(db, id);
    let (a, b) = (recorded(after), recorded(db).remove(id));
    tables::lemma_row_at::<EntryRow>(db.entries, id, db.entries.len());
    if db.has_entry(id) {
        let at = tables::row_of::<EntryRow>(db.entries, id)->0;
        let rows = after.entries;
        assert(rows == db.entries.remove(at));
        assert forall|i: int, j: int| 0 <= i < j < rows.len() implies EntryRow::id_of(
            #[trigger] rows[i],
        ) != EntryRow::id_of(#[trigger] rows[j]) by {
            let (x, y) = (
                if i < at {
                    i
                } else {
                    i + 1
                },
                if j < at {
                    j
                } else {
                    j + 1
                },
            );
            assert(EntryRow::id_of(db.entries[x]) != EntryRow::id_of(db.entries[y]));
        }
        assert forall|other: Id|
            #[trigger] a.contains_key(other) == b.contains_key(other) && (a.contains_key(other)
                ==> a[other] == b[other]) by {
            tables::lemma_row_at::<EntryRow>(rows, other, rows.len());
            tables::lemma_row_at::<EntryRow>(db.entries, other, db.entries.len());
            if after.has_entry(other) {
                let i = tables::row_of::<EntryRow>(rows, other)->0;
                let x = if i < at {
                    i
                } else {
                    i + 1
                };
                assert(db.entries[x] == rows[i]);
                lemma_at(db.entries, x);
                if other == id {
                    assert(EntryRow::id_of(db.entries[x]) == EntryRow::id_of(db.entries[at]));
                }
            } else if db.has_entry(other) && other != id {
                let x = tables::row_of::<EntryRow>(db.entries, other)->0;
                let i = if x < at {
                    x
                } else {
                    x - 1
                };
                assert(rows[i] == db.entries[x]);
                assert(EntryRow::id_of(rows[i]) == other);
            }
        }
        lemma_same_map(a, b);
    } else {
        assert(a =~= b);
    }
}

proof fn lemma_inserted_entries(
    db: ContentSpec,
    inputs: Seq<CreateSpec>,
    fresh: FreshIds,
    target: usize,
    now: Timestamp,
    n: nat,
)
    ensures
        entries::inserted(db, inputs, fresh, target, now, n) matches Ok(made) ==> made.db.entries
            == db.entries,
    decreases n,
{
    if n > 0 {
        lemma_inserted_entries(db, inputs, fresh, target, now, (n - 1) as nat);
    }
}

/// Reading an entry anew records the time of its file, and changes what is
/// recorded of no other.
pub proof fn law_reading_anew_records_the_time(
    db: ContentSpec,
    doc: DocSpec,
    id: Id,
    mtime: Seq<char>,
    fresh: FreshIds,
    target: usize,
    now: Timestamp,
)
    requires
        tables::distinct::<EntryRow>(db.entries),
    ensures
        entries::reindexed(db, doc, id, mtime, fresh, target, now) matches Ok(made) ==> recorded(
            made.db,
        ) == recorded(db).insert(id, time::time_of_text(mtime)),
{
    if let Ok(made) = entries::reindexed(db, doc, id, mtime, fresh, target, now) {
        let cleared = entries::without_entry(db, id);
        let row = entries::row_of_doc(doc, id, mtime);
        let start = entries::with_entry(cleared, row);
        lemma_inserted_entries(
            start,
            entries::blocks_of_doc(doc, id),
            fresh,
            target,
            now,
            doc.blocks.len(),
        );
        law_removing_forgets_an_entry(db, id);
        assert(!recorded(cleared).contains_key(id));
        let rows = start.entries;
        let (a, b) = (recorded(made.db), recorded(db).insert(id, time::time_of_text(mtime)));
        tables::lemma_row_at::<EntryRow>(cleared.entries, id, cleared.entries.len());
        assert forall|other: Id|
            #[trigger] a.contains_key(other) == b.contains_key(other) && (a.contains_key(other)
                ==> a[other] == b[other]) by {
            assert(recorded(cleared).contains_key(other) == recorded(db).remove(
                id,
            ).contains_key(other));
            tables::lemma_row_at::<EntryRow>(rows, other, rows.len());
            tables::lemma_row_at::<EntryRow>(cleared.entries, other, cleared.entries.len());
            let n = cleared.entries.len() as int;
            assert(rows[n] == row);
            if other == id {
                assert(EntryRow::id_of(rows[n]) == id);
                let k = tables::row_of::<EntryRow>(rows, id)->0;
                if k < n {
                    assert(EntryRow::id_of(cleared.entries[k]) == id);
                }
            } else if cleared.has_entry(other) {
                let i = tables::row_of::<EntryRow>(cleared.entries, other)->0;
                assert(rows[i] == cleared.entries[i]);
                let k = tables::row_of::<EntryRow>(rows, other)->0;
                if k != i {
                    if k < n {
                        assert(rows[k] == cleared.entries[k]);
                    }
                    assert(EntryRow::id_of(rows[k]) == other);
                }
                assert(recorded(cleared)[other] == recorded(db)[other]);
            } else {
                assert forall|k: int| 0 <= k < rows.len() implies EntryRow::id_of(
                    #[trigger] rows[k],
                ) != other by {
                    if k < n {
                        assert(rows[k] == cleared.entries[k]);
                    }
                }
            }
        }
        lemma_same_map(a, b);
    }
}

proof fn lemma_filter_again<A>(s: Seq<A>, p: spec_fn(A) -> bool, q: spec_fn(A) -> bool)
    requires
        forall|x: A| #[trigger] q(x) ==> p(x),
    ensures
        s.filter(p).filter(q) == s.filter(q),
    decreases s.len(),
{
    reveal(Seq::filter);
    if s.len() > 0 {
        let (head, x) = (s.drop_last(), s.last());
        lemma_filter_again(head, p, q);
        if p(x) {
            assert(s.filter(p) == head.filter(p).push(x));
            assert(s.filter(p).drop_last() =~= head.filter(p));
        } else {
            assert(!q(x));
        }
    }
}

/// What a rebuild has at hand for an entry: what its file says, where it can be
/// read, the file's time as text, and new identifiers.
pub struct SourceFile {
    pub id: Id,
    pub doc: Option<DocSpec>,
    pub mtime: Seq<char>,
    pub fresh: FreshIds,
    pub now: Timestamp,
}

/// An index that holds nothing.
pub open spec fn emptied() -> ContentSpec {
    ContentSpec {
        entries: Seq::empty(),
        blocks: Seq::empty(),
        chunks: Seq::empty(),
        links: Seq::empty(),
    }
}

/// One file read anew. A file that cannot be read, or is refused, changes
/// nothing.
#[verifier::opaque]
pub open spec fn with_file(db: ContentSpec, file: SourceFile, target: usize) -> ContentSpec {
    match file.doc {
        Some(doc) => match entries::reindexed(
            db,
            doc,
            file.id,
            file.mtime,
            file.fresh,
            target,
            file.now,
        ) {
            Ok(made) => made.db,
            Err(_) => db,
        },
        None => db,
    }
}

/// Reading a file anew is not refused.
#[verifier::opaque]
pub open spec fn is_read(db: ContentSpec, file: SourceFile, target: usize) -> bool {
    file.doc matches Some(doc) && entries::reindexed(
        db,
        doc,
        file.id,
        file.mtime,
        file.fresh,
        target,
        file.now,
    ) is Ok
}

/// The index that a rebuild leaves after the first `n` files: emptied, and then
/// filled by one file after another.
pub open spec fn rebuilt(files: Seq<SourceFile>, target: usize, n: nat) -> ContentSpec
    decreases n,
{
    if n == 0 {
        emptied()
    } else {
        with_file(rebuilt(files, target, (n - 1) as nat), files[n - 1], target)
    }
}

/// The entries whose file can be read among the first `n`, each with the time
/// of its file.
pub open spec fn read_times(files: Seq<SourceFile>, n: nat) -> Map<Id, Option<Timestamp>>
    decreases n,
{
    if n == 0 {
        Map::empty()
    } else {
        let before = read_times(files, (n - 1) as nat);
        if files[n - 1].doc is Some {
            before.insert(files[n - 1].id, time::time_of_text(files[n - 1].mtime))
        } else {
            before
        }
    }
}

/// There are enough identifiers for a file's blocks and chunks, and none is in
/// use.
#[verifier::opaque]
pub open spec fn is_supplied(db: ContentSpec, file: SourceFile, target: usize) -> bool {
    file.doc matches Some(doc) ==> {
        &&& doc.blocks.len() <= u32::MAX
        &&& entries::enough(file.fresh, entries::blocks_of_doc(doc, file.id), target)
        &&& content_laws::fresh_valid(db, file.fresh, doc.blocks.len())
    }
}

/// The entry that a file which can be read describes.
#[verifier::opaque]
pub open spec fn entry_in(file: SourceFile) -> EntrySpec {
    let doc = file.doc->0;
    entries::row_of_doc(doc, file.id, file.mtime).with_blocks(
        content_laws::rows_made(
            entries::blocks_of_doc(doc, file.id),
            file.fresh,
            file.now,
            doc.blocks.len(),
        ),
    )
}

/// The file at `k` is the last of the first `n` that can be read of its entry.
pub open spec fn is_last(files: Seq<SourceFile>, k: int, n: nat) -> bool {
    &&& 0 <= k < n
    &&& files[k].doc is Some
    &&& forall|j: int|
        k < j < n && (#[trigger] files[j]).doc is Some ==> files[j].id != files[k].id
}

/// Reading one file anew leaves all other entries as they are.
proof fn lemma_others_stay(db: ContentSpec, file: SourceFile, target: usize, other: Id)
    requires
        db.well_formed(),
        is_supplied(db, file, target),
        file.doc is Some,
        other != file.id,
        db.has_entry(other),
    ensures
        with_file(db, file, target).has_entry(other),
        entries::entry_of(with_file(db, file, target), other) == entries::entry_of(db, other),
{
    reveal(with_file);
    reveal(is_supplied);
    let (id, doc) = (file.id, file.doc->0);
    file_laws::law_reindexed_entry_is_its_file(
        db,
        doc,
        id,
        file.mtime,
        file.fresh,
        target,
        file.now,
    );
    let after = with_file(db, file, target);
    let cleared = entries::without_entry(db, id);
    let row = entries::row_of_doc(doc, id, file.mtime);
    let start = entries::with_entry(cleared, row);
    let inputs = entries::blocks_of_doc(doc, id);
    lemma_inserted_entries(start, inputs, file.fresh, target, file.now, inputs.len());
    let x = tables::row_of::<EntryRow>(db.entries, other)->0;
    tables::lemma_row_at::<EntryRow>(db.entries, other, db.entries.len());
    tables::lemma_row_at::<EntryRow>(db.entries, id, db.entries.len());
    let i = match tables::row_of::<EntryRow>(db.entries, id) {
        Some(at) => if x < at {
            x
        } else {
            x - 1
        },
        None => x,
    };
    assert(after.entries == cleared.entries.push(row));
    assert(after.entries[i] == db.entries[x]);
    lemma_at(after.entries, i);
    let q = content::belongs::<Block>(other);
    lemma_added_blocks(start, inputs, file.fresh, target, file.now, id, inputs.len());
    let made = entries::inserted(start, inputs, file.fresh, target, file.now, inputs.len())->Ok_0;
    Seq::filter_distributes_over_add(cleared.blocks, made.made, q);
    content_laws::lemma_filter_none(made.made, q);
    assert(content::owned::<Block>(after.blocks, other) =~= cleared.blocks.filter(q));
    if db.has_entry(id) {
        let p = |row: BlockRow| !seq![id].contains(Block::owner_of(row));
        assert forall|b: BlockRow| #[trigger] q(b) implies p(b) by {
            assert(seq![id][0] == id);
        }
        lemma_filter_again(db.blocks, p, q);
    }
}

proof fn lemma_added_blocks(
    db: ContentSpec,
    inputs: Seq<CreateSpec>,
    fresh: FreshIds,
    target: usize,
    now: Timestamp,
    id: Id,
    n: nat,
)
    requires
        n <= inputs.len(),
        forall|i: int| 0 <= i < inputs.len() ==> (#[trigger] inputs[i]).entry_id == id,
    ensures
        entries::inserted(db, inputs, fresh, target, now, n) matches Ok(r) ==> {
            &&& r.db.blocks == db.blocks + r.made
            &&& forall|i: int| 0 <= i < r.made.len() ==> (#[trigger] r.made[i]).entry_id == id
        },
    decreases n,
{
    if n == 0 {
        assert(db.blocks + Seq::<BlockRow>::empty() =~= db.blocks);
    } else {
        lemma_added_blocks(db, inputs, fresh, target, now, id, (n - 1) as nat);
        if let Ok(r) = entries::inserted(db, inputs, fresh, target, now, n) {
            let before = entries::inserted(db, inputs, fresh, target, now, (n - 1) as nat)->Ok_0;
            assert(inputs[n - 1].entry_id == id);
            assert(r.db.blocks =~= db.blocks + r.made);
        }
    }
}

/// A file that can be read is read, and the index then holds what it says. One
/// that cannot be read changes nothing.
proof fn lemma_file_is_read(db: ContentSpec, file: SourceFile, target: usize)
    requires
        db.well_formed(),
        is_supplied(db, file, target),
    ensures
        with_file(db, file, target).well_formed(),
        file.doc is None ==> with_file(db, file, target) == db,
        file.doc is Some ==> {
            &&& is_read(db, file, target)
            &&& with_file(db, file, target).has_entry(file.id)
            &&& entries::entry_of(with_file(db, file, target), file.id) == entry_in(file)
            &&& recorded(with_file(db, file, target)) == recorded(db).insert(
                file.id,
                time::time_of_text(file.mtime),
            )
        },
{
    reveal(with_file);
    reveal(is_supplied);
    reveal(is_read);
    reveal(entry_in);
    if let Some(doc) = file.doc {
        let id = file.id;
        file_laws::law_reindexed_entry_is_its_file(
            db,
            doc,
            id,
            file.mtime,
            file.fresh,
            target,
            file.now,
        );
        law_reading_anew_records_the_time(db, doc, id, file.mtime, file.fresh, target, file.now);
    }
}

proof fn lemma_emptied()
    ensures
        emptied().well_formed(),
        recorded(emptied()) == Map::<Id, Option<Timestamp>>::empty(),
{
    lemma_same_map(recorded(emptied()), Map::empty());
}

/// A rebuild makes the index anew from the files: it holds the entries whose
/// file can be read and no others, each with the time of its file and as its
/// file describes it. No file that can be read is refused.
pub proof fn law_rebuilt_index_is_its_files(files: Seq<SourceFile>, target: usize, n: nat)
    requires
        n <= files.len(),
        forall|k: int|
            0 <= k < n ==> is_supplied(
                rebuilt(files, target, k as nat),
                #[trigger] files[k],
                target,
            ),
    ensures
        rebuilt(files, target, n).well_formed(),
        recorded(rebuilt(files, target, n)) == read_times(files, n),
        forall|k: int|
            0 <= k < n && (#[trigger] files[k]).doc is Some ==> is_read(
                rebuilt(files, target, k as nat),
                files[k],
                target,
            ),
        forall|k: int| #[trigger]
            is_last(files, k, n) ==> rebuilt(files, target, n).has_entry(files[k].id)
                && entries::entry_of(rebuilt(files, target, n), files[k].id) == entry_in(files[k]),
    decreases n,
{
    let after = rebuilt(files, target, n);
    if n == 0 {
        lemma_emptied();
    } else {
        let m = (n - 1) as nat;
        law_rebuilt_index_is_its_files(files, target, m);
        let before = rebuilt(files, target, m);
        let file = files[n - 1];
        assert(is_supplied(before, file, target));
        assert(after == with_file(before, file, target));
        lemma_file_is_read(before, file, target);
        assert forall|k: int| #[trigger] is_last(files, k, n) implies after.has_entry(files[k].id)
            && entries::entry_of(after, files[k].id) == entry_in(files[k]) by {
            if k < m {
                assert(is_last(files, k, m));
                if file.doc is Some {
                    assert(files[n - 1].id != files[k].id);
                    lemma_others_stay(before, file, target, files[k].id);
                }
            }
        }
    }
}

} // verus!
