//! Comparing the files of a knowledge base with its index.
//!
//! The files are what counts. Each has a time at which it was last written, and
//! the index remembers, for each entry, the time that it last saw.
use vstd::prelude::*;
use vstd::string::*;

use crate::error::{CoreError, CoreFault};
use crate::ids::{self, Id};
use crate::model::{EntryRow, EntryRowSpec};
use crate::ordering;
use crate::signals::Moment;
use crate::text;
use crate::time::{self, Timestamp};

verus! {

/// An entry's directory, and when its file was written, where it can be read.
#[derive(Debug, Clone, Copy, PartialEq, Eq, Structural)]
pub struct FoundFile {
    pub id: Id,
    pub mtime: Option<Timestamp>,
}

/// An entry of the index, and when its file was last seen to be written.
#[derive(Debug, Clone)]
pub struct IndexedFile {
    pub id: Id,
    pub mtime: Option<Moment>,
}

/// The row of a comparison for an entry of the index: the time is what the
/// recorded text reads as.
pub open spec fn is_row_for(file: IndexedFile, row: EntryRowSpec) -> bool {
    &&& file.id == row.id
    &&& match row.fs_mtime {
        Some(s) => file.mtime matches Some(m) && m.text@ == s && m.time == time::time_of_text(s),
        None => file.mtime is None,
    }
}

/// One row for each entry, in order.
pub open spec fn are_rows_for(files: Seq<IndexedFile>, rows: Seq<EntryRowSpec>) -> bool {
    &&& files.len() == rows.len()
    &&& forall|i: int| 0 <= i < rows.len() ==> is_row_for(#[trigger] files[i], rows[i])
}

/// What the index has seen of files.
pub fn indexed_files(entries: &Vec<EntryRow>) -> (files: Vec<IndexedFile>)
    ensures
        are_rows_for(files@, ordering::views(entries@)),
{
    let mut files: Vec<IndexedFile> = Vec::new();
    let mut i: usize = 0;
    while i < entries.len()
        invariant
            i <= entries.len(),
            files.len() == i,
            forall|k: int| 0 <= k < i ==> is_row_for(#[trigger] files@[k], entries@[k]@),
        decreases entries.len() - i,
    {
        let mtime = match &entries[i].fs_mtime {
            Some(s) => Some(Moment::read(s.clone())),
            None => None,
        };
        files.push(IndexedFile { id: entries[i].id, mtime });
        i += 1;
    }
    files
}

/// What a comparison makes of a file.
#[derive(Debug, Clone, Copy, PartialEq, Eq, Structural)]
pub enum Bucket {
    /// The index does not know it.
    Added,
    /// The index knows an older state of it.
    Updated,
    /// The index knows it, but it cannot be read any more.
    Removed,
    /// There is nothing to do.
    Unchanged,
}

/// The entry in the first `n` rows of the index.
pub open spec fn indexed_at(db: Seq<IndexedFile>, id: Id, n: nat) -> Option<int>
    decreases n,
{
    if n == 0 {
        None
    } else {
        match indexed_at(db, id, (n - 1) as nat) {
            Some(i) => Some(i),
            None => if db[n - 1].id == id {
                Some(n - 1)
            } else {
                None
            },
        }
    }
}

/// What a comparison makes of a file, given what the index knows of it: nothing,
/// or the time that it last saw, where it saw one.
pub open spec fn bucket_of(known: Option<Option<Moment>>, mtime: Option<Timestamp>) -> Bucket {
    match (known, mtime) {
        (None, Some(_)) => Bucket::Added,
        (None, None) => Bucket::Unchanged,
        (Some(_), None) => Bucket::Removed,
        (Some(None), Some(_)) => Bucket::Updated,
        (Some(Some(m)), Some(t)) => if m.time == Some(t) {
            Bucket::Unchanged
        } else {
            Bucket::Updated
        },
    }
}

/// What the index knows of an entry.
pub open spec fn known(db: Seq<IndexedFile>, id: Id) -> Option<Option<Moment>> {
    match indexed_at(db, id, db.len()) {
        Some(i) => Some(db[i].mtime),
        None => None,
    }
}

/// A file has the identifier.
pub open spec fn is_found(fs: Seq<FoundFile>, id: Id) -> bool {
    exists|i: int| 0 <= i < fs.len() && (#[trigger] fs[i]).id == id
}

/// The entries of the first `n` rows of the index that have no directory.
pub open spec fn missing(fs: Seq<FoundFile>, db: Seq<IndexedFile>, n: nat) -> Seq<Id>
    decreases n,
{
    if n == 0 {
        Seq::empty()
    } else {
        let before = missing(fs, db, (n - 1) as nat);
        if is_found(fs, db[n - 1].id) {
            before
        } else {
            before.push(db[n - 1].id)
        }
    }
}

/// What is to be done: for each file in turn, and then with the entries that
/// have no directory.
#[derive(Debug, Clone)]
pub struct SyncPlan {
    pub steps: Vec<(Id, Bucket)>,
    pub gone: Vec<Id>,
}

/// What is to be done for each file.
pub open spec fn steps_of(fs: Seq<FoundFile>, db: Seq<IndexedFile>) -> Seq<(Id, Bucket)> {
    fs.map_values(|f: FoundFile| (f.id, bucket_of(known(db, f.id), f.mtime)))
}

fn find_indexed(db: &Vec<IndexedFile>, id: Id) -> (r: Option<usize>)
    ensures
        match r {
            Some(i) => i < db.len() && indexed_at(db@, id, db@.len()) == Some(i as int),
            None => indexed_at(db@, id, db@.len()) is None,
        },
{
    let mut found: Option<usize> = None;
    let mut k: usize = 0;
    while k < db.len()
        invariant
            k <= db.len(),
            match found {
                Some(i) => i < k && indexed_at(db@, id, k as nat) == Some(i as int),
                None => indexed_at(db@, id, k as nat) is None,
            },
        decreases db.len() - k,
    {
        if found.is_none() && db[k].id == id {
            found = Some(k);
        }
        k += 1;
    }
    found
}

fn find_found(fs: &Vec<FoundFile>, id: Id) -> (r: bool)
    ensures
        r == is_found(fs@, id),
{
    let mut i: usize = 0;
    while i < fs.len()
        invariant
            i <= fs.len(),
            forall|k: int| 0 <= k < i ==> (#[trigger] fs@[k]).id != id,
        decreases fs.len() - i,
    {
        if fs[i].id == id {
            return true;
        }
        i += 1;
    }
    false
}

fn same_time(a: Option<Timestamp>, b: Option<Timestamp>) -> (r: bool)
    ensures
        r == (a == b),
{
    match (a, b) {
        (Some(x), Some(y)) => x == y,
        (None, None) => true,
        _ => false,
    }
}

/// What a comparison makes of a file.
fn classify(db: &Vec<IndexedFile>, f: &FoundFile) -> (r: Bucket)
    ensures
        r == bucket_of(known(db@, f.id), f.mtime),
{
    match (find_indexed(db, f.id), f.mtime) {
        (None, Some(_)) => Bucket::Added,
        (None, None) => Bucket::Unchanged,
        (Some(_), None) => Bucket::Removed,
        (Some(i), Some(t)) => match &db[i].mtime {
            None => Bucket::Updated,
            Some(m) => if same_time(m.time, Some(t)) {
                Bucket::Unchanged
            } else {
                Bucket::Updated
            },
        },
    }
}

fn find_missing(fs: &Vec<FoundFile>, db: &Vec<IndexedFile>) -> (r: Vec<Id>)
    ensures
        r@ == missing(fs@, db@, db@.len()),
        r.len() <= db.len(),
{
    let mut out: Vec<Id> = Vec::new();
    let mut i: usize = 0;
    while i < db.len()
        invariant
            i <= db.len(),
            out.len() <= i,
            out@ == missing(fs@, db@, i as nat),
        decreases db.len() - i,
    {
        if !find_found(fs, db[i].id) {
            out.push(db[i].id);
        }
        i += 1;
    }
    out
}

/// Compare files with the index and say what is to be done.
pub fn sync_from_fs(fs: &Vec<FoundFile>, db: &Vec<IndexedFile>) -> (r: SyncPlan)
    ensures
        r.steps@ == steps_of(fs@, db@),
        r.gone@ == missing(fs@, db@, db@.len()),
        r.gone.len() <= db.len(),
{
    let ghost all = steps_of(fs@, db@);
    let mut steps: Vec<(Id, Bucket)> = Vec::new();
    let mut i: usize = 0;
    while i < fs.len()
        invariant
            i <= fs.len(),
            all == steps_of(fs@, db@),
            steps@ == all.take(i as int),
        decreases fs.len() - i,
    {
        steps.push((fs[i].id, classify(db, &fs[i])));
        proof {
            assert(all.take(i + 1) =~= all.take(i as int).push(all[i as int]));
        }
        i += 1;
    }
    proof {
        assert(all.take(i as int) =~= all);
    }
    SyncPlan { steps, gone: find_missing(fs, db) }
}

/// The entries of the index, each with the time that was last seen of its file,
/// where one was.
pub open spec fn index_of(db: Seq<IndexedFile>) -> Map<Id, Option<Timestamp>> {
    Map::new(
        |id: Id| known(db, id) is Some,
        |id: Id|
            match known(db, id) {
                Some(Some(m)) => m.time,
                _ => None,
            },
    )
}

/// The index after one step was carried out: an entry that was read anew has
/// the time of its file, and one that was removed is gone.
pub open spec fn after_step(
    index: Map<Id, Option<Timestamp>>,
    file: FoundFile,
    bucket: Bucket,
) -> Map<Id, Option<Timestamp>> {
    match bucket {
        Bucket::Added | Bucket::Updated => index.insert(file.id, file.mtime),
        Bucket::Removed => index.remove(file.id),
        Bucket::Unchanged => index,
    }
}

/// The index after the first `n` steps of a plan for `fs` were carried out.
pub open spec fn after_steps(
    index: Map<Id, Option<Timestamp>>,
    fs: Seq<FoundFile>,
    steps: Seq<(Id, Bucket)>,
    n: nat,
) -> Map<Id, Option<Timestamp>>
    decreases n,
{
    if n == 0 {
        index
    } else {
        after_step(after_steps(index, fs, steps, (n - 1) as nat), fs[n - 1], steps[n - 1].1)
    }
}

/// The index after the first `n` entries without a directory were removed.
pub open spec fn after_gone(
    index: Map<Id, Option<Timestamp>>,
    gone: Seq<Id>,
    n: nat,
) -> Map<Id, Option<Timestamp>>
    decreases n,
{
    if n == 0 {
        index
    } else {
        after_gone(index, gone, (n - 1) as nat).remove(gone[n - 1])
    }
}

/// The index after the plan for `fs` was carried out.
pub open spec fn carried_out(fs: Seq<FoundFile>, db: Seq<IndexedFile>) -> Map<
    Id,
    Option<Timestamp>,
> {
    let steps = steps_of(fs, db);
    let gone = missing(fs, db, db.len());
    after_gone(after_steps(index_of(db), fs, steps, fs.len()), gone, gone.len())
}

/// How many of the first `n` steps are of a kind.
pub open spec fn count_of(steps: Seq<(Id, Bucket)>, b: Bucket, n: nat) -> nat
    decreases n,
{
    if n == 0 {
        0
    } else {
        count_of(steps, b, (n - 1) as nat) + if steps[n - 1].1 == b {
            1nat
        } else {
            0nat
        }
    }
}

/// The entries that the first `n` steps read anew.
pub open spec fn read_anew(steps: Seq<(Id, Bucket)>, n: nat) -> Seq<Id>
    decreases n,
{
    if n == 0 {
        Seq::empty()
    } else {
        let before = read_anew(steps, (n - 1) as nat);
        if steps[n - 1].1 == Bucket::Added || steps[n - 1].1 == Bucket::Updated {
            before.push(steps[n - 1].0)
        } else {
            before
        }
    }
}

/// What a pass over files and index did.
#[derive(Debug, Clone)]
pub struct SyncResult {
    pub added: u64,
    pub updated: u64,
    pub removed: u64,
    pub unchanged: u64,
    /// The entries that were read anew, added or updated.
    pub reindexed_ids: Vec<Id>,
}

impl Default for SyncResult {
    fn default() -> (r: SyncResult)
        ensures
            r.added == 0,
            r.updated == 0,
            r.removed == 0,
            r.unchanged == 0,
            r.reindexed_ids@.len() == 0,
    {
        SyncResult { added: 0, updated: 0, removed: 0, unchanged: 0, reindexed_ids: Vec::new() }
    }
}

/// What carrying out a plan did.
pub fn sync_result(plan: &SyncPlan) -> (r: SyncResult)
    requires
        plan.steps.len() + plan.gone.len() <= u64::MAX,
    ensures
        ({
            let (steps, n) = (plan.steps@, plan.steps@.len());
            &&& r.added == count_of(steps, Bucket::Added, n)
            &&& r.updated == count_of(steps, Bucket::Updated, n)
            &&& r.removed == count_of(steps, Bucket::Removed, n) + plan.gone@.len()
            &&& r.unchanged == count_of(steps, Bucket::Unchanged, n)
            &&& r.reindexed_ids@ == read_anew(steps, n)
        }),
{
    let mut r = SyncResult {
        added: 0,
        updated: 0,
        removed: 0,
        unchanged: 0,
        reindexed_ids: Vec::new(),
    };
    let mut i: usize = 0;
    while i < plan.steps.len()
        invariant
            i <= plan.steps.len(),
            plan.steps.len() + plan.gone.len() <= u64::MAX,
            r.added + r.updated + r.removed + r.unchanged == i,
            r.added == count_of(plan.steps@, Bucket::Added, i as nat),
            r.updated == count_of(plan.steps@, Bucket::Updated, i as nat),
            r.removed == count_of(plan.steps@, Bucket::Removed, i as nat),
            r.unchanged == count_of(plan.steps@, Bucket::Unchanged, i as nat),
            r.reindexed_ids@ == read_anew(plan.steps@, i as nat),
        decreases plan.steps.len() - i,
    {
        let (id, bucket) = plan.steps[i];
        match bucket {
            Bucket::Added => {
                r.added += 1;
                r.reindexed_ids.push(id);
            },
            Bucket::Updated => {
                r.updated += 1;
                r.reindexed_ids.push(id);
            },
            Bucket::Removed => {
                r.removed += 1;
            },
            Bucket::Unchanged => {
                r.unchanged += 1;
            },
        }
        i += 1;
    }
    r.removed += plan.gone.len() as u64;
    r
}

/// What a comparison that changes nothing makes of a file.
#[derive(Debug, Clone, Copy, PartialEq, Eq, Structural)]
pub enum Drift {
    FsOnly,
    StaleMtime,
    Consistent,
}

/// The drift of a file. An index row that never saw a time counts as
/// consistent.
pub open spec fn drift_of(known: Option<Option<Moment>>, mtime: Option<Timestamp>) -> Drift {
    match known {
        None => Drift::FsOnly,
        Some(None) => Drift::Consistent,
        Some(Some(m)) => if m.time == mtime {
            Drift::Consistent
        } else {
            Drift::StaleMtime
        },
    }
}

/// How many of the first `n` files drifted in a way.
pub open spec fn drifted(fs: Seq<FoundFile>, db: Seq<IndexedFile>, d: Drift, n: nat) -> nat
    decreases n,
{
    if n == 0 {
        0
    } else {
        drifted(fs, db, d, (n - 1) as nat) + if drift_of(
            known(db, fs[n - 1].id),
            fs[n - 1].mtime,
        ) == d {
            1nat
        } else {
            0nat
        }
    }
}

/// How far files and index have drifted apart.
#[derive(Debug, Clone, Copy, PartialEq, Eq, Structural)]
pub struct VerifyResult {
    pub fs_only: u64,
    pub db_only: u64,
    pub stale_mtime: u64,
    pub consistent: u64,
}

impl Default for VerifyResult {
    fn default() -> (r: VerifyResult)
        ensures
            r == (VerifyResult { fs_only: 0, db_only: 0, stale_mtime: 0, consistent: 0 }),
    {
        VerifyResult { fs_only: 0, db_only: 0, stale_mtime: 0, consistent: 0 }
    }
}

/// Say how far files and index have drifted apart, without changing either.
pub fn verify_fs(fs: &Vec<FoundFile>, db: &Vec<IndexedFile>) -> (r: VerifyResult)
    ensures
        r.fs_only == drifted(fs@, db@, Drift::FsOnly, fs@.len()),
        r.stale_mtime == drifted(fs@, db@, Drift::StaleMtime, fs@.len()),
        r.consistent == drifted(fs@, db@, Drift::Consistent, fs@.len()),
        r.db_only == missing(fs@, db@, db@.len()).len(),
{
    let mut r = VerifyResult { fs_only: 0, db_only: 0, stale_mtime: 0, consistent: 0 };
    let mut i: usize = 0;
    while i < fs.len()
        invariant
            i <= fs.len(),
            r.db_only == 0,
            r.fs_only + r.stale_mtime + r.consistent == i,
            r.fs_only == drifted(fs@, db@, Drift::FsOnly, i as nat),
            r.stale_mtime == drifted(fs@, db@, Drift::StaleMtime, i as nat),
            r.consistent == drifted(fs@, db@, Drift::Consistent, i as nat),
        decreases fs.len() - i,
    {
        match find_indexed(db, fs[i].id) {
            None => {
                r.fs_only += 1;
            },
            Some(k) => {
                let fresh = match &db[k].mtime {
                    None => true,
                    Some(m) => same_time(m.time, fs[i].mtime),
                };
                if fresh {
                    r.consistent += 1;
                } else {
                    r.stale_mtime += 1;
                }
            },
        }
        i += 1;
    }
    let gone = find_missing(fs, db);
    r.db_only = gone.len() as u64;
    r
}

/// Where every file can be read and every index row has seen a time, what a
/// comparison reports is what a synchronisation then does: files that are on
/// disk only are added, stale ones updated, entries without a file removed,
/// and the others left alone.
pub proof fn law_verify_foretells_sync(fs: Seq<FoundFile>, db: Seq<IndexedFile>, n: nat)
    requires
        n <= fs.len(),
        forall|i: int| 0 <= i < fs.len() ==> (#[trigger] fs[i]).mtime is Some,
        forall|i: int| 0 <= i < db.len() ==> (#[trigger] db[i]).mtime is Some,
    ensures
        count_of(steps_of(fs, db), Bucket::Added, n) == drifted(fs, db, Drift::FsOnly, n),
        count_of(steps_of(fs, db), Bucket::Updated, n) == drifted(fs, db, Drift::StaleMtime, n),
        count_of(steps_of(fs, db), Bucket::Unchanged, n) == drifted(fs, db, Drift::Consistent, n),
        count_of(steps_of(fs, db), Bucket::Removed, n) == 0,
    decreases n,
{
    if n > 0 {
        law_verify_foretells_sync(fs, db, (n - 1) as nat);
        let f = fs[n - 1];
        lemma_indexed(db, f.id, db.len());
        assert(steps_of(fs, db)[n - 1] == (f.id, bucket_of(known(db, f.id), f.mtime)));
    }
}

pub(crate) proof fn lemma_indexed(db: Seq<IndexedFile>, id: Id, n: nat)
    requires
        n <= db.len(),
    ensures
        match indexed_at(db, id, n) {
            Some(i) => 0 <= i < n && db[i].id == id,
            None => forall|j: int| 0 <= j < n ==> (#[trigger] db[j]).id != id,
        },
    decreases n,
{
    if n > 0 {
        lemma_indexed(db, id, (n - 1) as nat);
    }
}

/// The index is what a synchronisation leaves: a row for each file that can be
/// read, with the file's time, and no other row.
pub open spec fn mirrors(fs: Seq<FoundFile>, db: Seq<IndexedFile>) -> bool {
    &&& forall|i: int|
        0 <= i < fs.len() ==> match (#[trigger] fs[i]).mtime {
            Some(t) => known(db, fs[i].id) matches Some(Some(m)) && m.time == Some(t),
            None => known(db, fs[i].id) is None,
        }
    &&& forall|i: int| 0 <= i < db.len() ==> is_found(fs, (#[trigger] db[i]).id)
}

/// Synchronising an index that mirrors the files finds nothing to do.
pub proof fn law_second_sync_changes_nothing(fs: Seq<FoundFile>, db: Seq<IndexedFile>, n: nat)
    requires
        mirrors(fs, db),
        n <= fs.len(),
    ensures
        count_of(steps_of(fs, db), Bucket::Unchanged, n) == n,
        read_anew(steps_of(fs, db), n) == Seq::<Id>::empty(),
        missing(fs, db, db.len()) == Seq::<Id>::empty(),
    decreases n,
{
    lemma_none_missing(fs, db, db.len());
    if n > 0 {
        law_second_sync_changes_nothing(fs, db, (n - 1) as nat);
        let f = fs[n - 1];
        assert(steps_of(fs, db)[n - 1] == (f.id, bucket_of(known(db, f.id), f.mtime)));
    }
}

proof fn lemma_none_missing(fs: Seq<FoundFile>, db: Seq<IndexedFile>, n: nat)
    requires
        mirrors(fs, db),
        n <= db.len(),
    ensures
        missing(fs, db, n) == Seq::<Id>::empty(),
    decreases n,
{
    if n > 0 {
        lemma_none_missing(fs, db, (n - 1) as nat);
        assert(is_found(fs, db[n - 1].id));
    }
}

/// What a rebuild of the index did.
#[derive(Debug, Clone)]
pub struct RebuildResult {
    pub reindexed: u64,
    pub errors: Vec<String>,
}

impl Default for RebuildResult {
    fn default() -> (r: RebuildResult)
        ensures
            r.reindexed == 0,
            r.errors@.len() == 0,
    {
        RebuildResult { reindexed: 0, errors: Vec::new() }
    }
}

/// What is said of an entry that met an error.
pub open spec fn entry_error(id: Id, what: Seq<char>, e: CoreFault) -> Seq<char> {
    "entry "@ + ids::text_of_id(id) + ": "@ + what + e.message()
}

fn write_entry_error(id: Id, what: &str, e: &CoreError) -> (s: String)
    ensures
        s@ == entry_error(id, what@, e@),
{
    let id = ids::id_text(id);
    let m = e.to_text();
    let mut s = text::text3("entry ", id.as_str(), ": ");
    s.append(what);
    s.append(m.as_str());
    s
}

/// The errors that the first `n` entries met.
pub open spec fn rebuild_errors(
    ids: Seq<Id>,
    outcomes: Seq<Result<(), CoreError>>,
    n: nat,
) -> Seq<Seq<char>>
    decreases n,
{
    if n == 0 {
        Seq::empty()
    } else {
        let before = rebuild_errors(ids, outcomes, (n - 1) as nat);
        match outcomes[n - 1] {
            Ok(()) => before,
            Err(e) => before.push(entry_error(ids[n - 1], Seq::empty(), e@)),
        }
    }
}

/// What a rebuild did, given what became of each entry. An entry that failed
/// does not stop the others.
pub fn rebuild_result(ids: &Vec<Id>, outcomes: &Vec<Result<(), CoreError>>) -> (r: RebuildResult)
    requires
        outcomes.len() == ids.len(),
    ensures
        r.reindexed + r.errors@.len() == ids@.len(),
        text::texts(r.errors@) == rebuild_errors(ids@, outcomes@, ids@.len()),
{
    let mut reindexed: u64 = 0;
    let mut errors: Vec<String> = Vec::new();
    let mut i: usize = 0;
    proof {
        assert(text::texts(errors@) =~= Seq::empty());
    }
    while i < ids.len()
        invariant
            i <= ids.len(),
            outcomes.len() == ids.len(),
            reindexed + errors@.len() == i,
            text::texts(errors@) == rebuild_errors(ids@, outcomes@, i as nat),
        decreases ids.len() - i,
    {
        match &outcomes[i] {
            Ok(()) => {
                reindexed += 1;
            },
            Err(e) => {
                let ghost before = errors@;
                let s = write_entry_error(ids[i], "", e);
                let ghost said = s@;
                errors.push(s);
                proof {
                    reveal_strlit("");
                    assert(""@ =~= Seq::<char>::empty());
                    assert(text::texts(errors@) =~= text::texts(before).push(said));
                }
            },
        }
        i += 1;
    }
    RebuildResult { reindexed, errors }
}

/// Whether an entry's file is to be written: the index names none, or it is
/// not there.
pub fn needs_export(fs_path: &Option<String>, file_exists: bool) -> (r: bool)
    ensures
        r == !(file_exists && fs_path is Some && fs_path->0@.len() > 0),
{
    match fs_path {
        Some(p) => !(file_exists && !p.as_str().is_empty()),
        None => true,
    }
}

/// What became of an entry that was to be exported.
#[derive(Debug, Clone)]
pub enum ExportOutcome {
    Exported,
    Skipped,
    GetFailed(CoreError),
    WriteFailed(CoreError),
    UpdateFailed(CoreError),
}

/// What an export did.
#[derive(Debug, Clone)]
pub struct ExportResult {
    pub exported: u64,
    pub skipped: u64,
    pub errors: Vec<String>,
}

impl Default for ExportResult {
    fn default() -> (r: ExportResult)
        ensures
            r.exported == 0,
            r.skipped == 0,
            r.errors@.len() == 0,
    {
        ExportResult { exported: 0, skipped: 0, errors: Vec::new() }
    }
}

/// What is said of an export that failed.
pub open spec fn export_error(id: Id, outcome: ExportOutcome) -> Option<Seq<char>> {
    match outcome {
        ExportOutcome::GetFailed(e) => Some(entry_error(id, "get failed: "@, e@)),
        ExportOutcome::WriteFailed(e) => Some(entry_error(id, "write failed: "@, e@)),
        ExportOutcome::UpdateFailed(e) => Some(entry_error(id, "fs_path update failed: "@, e@)),
        _ => None,
    }
}

/// The errors that the first `n` exports met.
pub open spec fn export_errors(ids: Seq<Id>, outcomes: Seq<ExportOutcome>, n: nat) -> Seq<Seq<char>>
    decreases n,
{
    if n == 0 {
        Seq::empty()
    } else {
        let before = export_errors(ids, outcomes, (n - 1) as nat);
        match export_error(ids[n - 1], outcomes[n - 1]) {
            Some(e) => before.push(e),
            None => before,
        }
    }
}

/// How many of the first `n` entries were exported.
pub open spec fn exports(outcomes: Seq<ExportOutcome>, n: nat) -> nat
    decreases n,
{
    if n == 0 {
        0
    } else {
        exports(outcomes, (n - 1) as nat) + if outcomes[n - 1] is Exported {
            1nat
        } else {
            0nat
        }
    }
}

/// What an export did, given what became of each entry. An entry that failed
/// does not stop the others.
pub fn export_result(ids: &Vec<Id>, outcomes: &Vec<ExportOutcome>) -> (r: ExportResult)
    requires
        outcomes.len() == ids.len(),
    ensures
        r.exported == exports(outcomes@, ids@.len()),
        r.exported + r.skipped + r.errors@.len() == ids@.len(),
        text::texts(r.errors@) == export_errors(ids@, outcomes@, ids@.len()),
{
    let mut exported: u64 = 0;
    let mut skipped: u64 = 0;
    let mut errors: Vec<String> = Vec::new();
    let mut i: usize = 0;
    proof {
        assert(text::texts(errors@) =~= Seq::empty());
    }
    while i < ids.len()
        invariant
            i <= ids.len(),
            outcomes.len() == ids.len(),
            exported == exports(outcomes@, i as nat),
            exported + skipped + errors@.len() == i,
            text::texts(errors@) == export_errors(ids@, outcomes@, i as nat),
        decreases ids.len() - i,
    {
        let failure = match &outcomes[i] {
            ExportOutcome::Exported => {
                exported += 1;
                None
            },
            ExportOutcome::Skipped => {
                skipped += 1;
                None
            },
            ExportOutcome::GetFailed(e) => Some(write_entry_error(ids[i], "get failed: ", e)),
            ExportOutcome::WriteFailed(e) => Some(write_entry_error(ids[i], "write failed: ", e)),
            ExportOutcome::UpdateFailed(e) => Some(
                write_entry_error(ids[i], "fs_path update failed: ", e),
            ),
        };
        if let Some(s) = failure {
            let ghost before = errors@;
            let ghost said = s@;
            errors.push(s);
            proof {
                assert(text::texts(errors@) =~= text::texts(before).push(said));
            }
        }
        i += 1;
    }
    ExportResult { exported, skipped, errors }
}

} // verus!
