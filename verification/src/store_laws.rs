//! What holds of comparing the files with the index, and of what directories
//! hold.
use vstd::prelude::*;
use vstd::string::*;

use crate::content_store::{self, AttachmentSpec, DirItem};
use crate::entry_list;
use crate::error::CoreError;
use crate::ids::{self, Id};
use crate::model::EntryRowSpec;
use crate::ordering;
use crate::signals;
use crate::sync::{self, Bucket, Drift, ExportOutcome, FoundFile, IndexedFile};
use crate::text;
use crate::time;
use crate::visibility;

verus! {

/// The first row of that identifier stands at `j`.
pub open spec fn is_indexed(db: Seq<IndexedFile>, id: Id, j: int) -> bool {
    &&& 0 <= j < db.len()
    &&& db[j].id == id
    &&& forall|i: int| 0 <= i < j ==> (#[trigger] db[i]).id != id
}

/// No row has the identifier.
pub open spec fn is_unknown(db: Seq<IndexedFile>, id: Id) -> bool {
    forall|i: int| 0 <= i < db.len() ==> (#[trigger] db[i]).id != id
}

proof fn lemma_indexed(db: Seq<IndexedFile>, id: Id, n: nat)
    requires
        n <= db.len(),
    ensures
        match sync::indexed_at(db, id, n) {
            Some(i) => 0 <= i < n && is_indexed(db, id, i),
            None => forall|i: int| 0 <= i < n ==> (#[trigger] db[i]).id != id,
        },
    decreases n,
{
    if n > 0 {
        lemma_indexed(db, id, (n - 1) as nat);
    }
}

proof fn lemma_known(db: Seq<IndexedFile>, id: Id, j: int)
    ensures
        is_unknown(db, id) ==> sync::known(db, id) is None,
        is_indexed(db, id, j) ==> sync::known(db, id) == Some(db[j].mtime),
{
    lemma_indexed(db, id, db.len());
    let at = sync::indexed_at(db, id, db.len());
    if is_indexed(db, id, j) {
        if at is None {
            assert(db[j].id != id);
        } else if at->0 < j {
            assert(db[at->0].id != id);
        } else if j < at->0 {
            assert(db[j].id != id);
        }
    }
    if is_unknown(db, id) && at is Some {
        assert(db[at->0].id != id);
    }
}

/// A file that the index does not know is added where it can be read; one that
/// it knows is removed where it cannot; and one that it knows is read anew
/// unless the index holds its very time.
pub proof fn law_files_are_compared_by_time(
    fs: Seq<FoundFile>,
    db: Seq<IndexedFile>,
    i: int,
    j: int,
)
    requires
        0 <= i < fs.len(),
    ensures
        ({
            let f = fs[i];
            let step = sync::steps_of(fs, db)[i];
            &&& sync::steps_of(fs, db).len() == fs.len()
            &&& step.0 == f.id
            &&& is_unknown(db, f.id) ==> step.1 == if f.mtime is Some {
                Bucket::Added
            } else {
                Bucket::Unchanged
            }
            &&& is_indexed(db, f.id, j) ==> step.1 == if f.mtime is None {
                Bucket::Removed
            } else if db[j].mtime is Some && db[j].mtime->0.time == f.mtime {
                Bucket::Unchanged
            } else {
                Bucket::Updated
            }
        }),
{
    lemma_known(db, fs[i].id, j);
}

/// What the index knows and no file is there for is gone, once for each row.
pub proof fn law_rows_without_a_file_are_gone(fs: Seq<FoundFile>, db: Seq<IndexedFile>, n: nat)
    requires
        n <= db.len(),
    ensures
        sync::missing(fs, db, n) == db.take(n as int).filter(
            |row: IndexedFile|
                forall|i: int| 0 <= i < fs.len() ==> (#[trigger] fs[i]).id != row.id,
        ).map_values(|row: IndexedFile| row.id),
    decreases n,
{
    let keep = |row: IndexedFile|
        forall|i: int| 0 <= i < fs.len() ==> (#[trigger] fs[i]).id != row.id;
    let name = |row: IndexedFile| row.id;
    if n == 0 {
        reveal(Seq::filter);
        assert(db.take(0).filter(keep) =~= Seq::empty());
        assert(sync::missing(fs, db, n) =~= db.take(0).filter(keep).map_values(name));
    } else {
        law_rows_without_a_file_are_gone(fs, db, (n - 1) as nat);
        signals::lemma_filter_take(db, n - 1, keep);
        let before = db.take(n - 1).filter(keep);
        assert(sync::is_found(fs, db[n - 1].id) == !keep(db[n - 1]));
        assert(before.push(db[n - 1]).map_values(name) =~= before.map_values(name).push(
            db[n - 1].id,
        ));
    }
}

/// A synchronisation counts its steps of each kind, and names those that were
/// read anew, in order.
pub proof fn law_sync_counts_its_steps(steps: Seq<(Id, Bucket)>, b: Bucket, n: nat)
    requires
        n <= steps.len(),
    ensures
        sync::count_of(steps, b, n) == steps.take(n as int).filter(
            |s: (Id, Bucket)| s.1 == b,
        ).len(),
        sync::read_anew(steps, n) == steps.take(n as int).filter(
            |s: (Id, Bucket)| s.1 is Added || s.1 is Updated,
        ).map_values(|s: (Id, Bucket)| s.0),
        sync::count_of(steps, Bucket::Added, n) + sync::count_of(steps, Bucket::Updated, n)
            + sync::count_of(steps, Bucket::Removed, n) + sync::count_of(
            steps,
            Bucket::Unchanged,
            n,
        ) == n,
    decreases n,
{
    let kind = |s: (Id, Bucket)| s.1 == b;
    let anew = |s: (Id, Bucket)| s.1 is Added || s.1 is Updated;
    let name = |s: (Id, Bucket)| s.0;
    if n == 0 {
        reveal(Seq::filter);
        assert(steps.take(0).filter(kind) =~= Seq::empty());
        assert(steps.take(0).filter(anew) =~= Seq::empty());
        assert(sync::read_anew(steps, n) =~= steps.take(0).filter(anew).map_values(name));
    } else {
        law_sync_counts_its_steps(steps, b, (n - 1) as nat);
        signals::lemma_filter_take(steps, n - 1, kind);
        signals::lemma_filter_take(steps, n - 1, anew);
        let before = steps.take(n - 1).filter(anew);
        assert(before.push(steps[n - 1]).map_values(name) =~= before.map_values(name).push(
            steps[n - 1].0,
        ));
    }
}

/// How a file stands to the index.
pub open spec fn stands(db: Seq<IndexedFile>, f: FoundFile, d: Drift) -> bool {
    match d {
        Drift::FsOnly => is_unknown(db, f.id),
        Drift::StaleMtime => exists|j: int| #[trigger]
            is_indexed(db, f.id, j) && db[j].mtime is Some && db[j].mtime->0.time != f.mtime,
        Drift::Consistent => exists|j: int| #[trigger]
            is_indexed(db, f.id, j) && (db[j].mtime is None || db[j].mtime->0.time == f.mtime),
    }
}

proof fn lemma_stands(db: Seq<IndexedFile>, f: FoundFile, d: Drift)
    ensures
        stands(db, f, d) <==> sync::drift_of(sync::known(db, f.id), f.mtime) == d,
{
    lemma_indexed(db, f.id, db.len());
    match sync::indexed_at(db, f.id, db.len()) {
        Some(j) => {
            assert(is_indexed(db, f.id, j));
            assert(!is_unknown(db, f.id)) by {
                assert(db[j].id == f.id);
            }
            assert forall|k: int| #[trigger] is_indexed(db, f.id, k) implies k == j by {
                if k < j {
                    assert(db[k].id != f.id);
                } else if j < k {
                    assert(db[j].id != f.id);
                }
            }
        },
        None => {
            assert(is_unknown(db, f.id));
            assert forall|k: int| !#[trigger] is_indexed(db, f.id, k) by {
                if is_indexed(db, f.id, k) {
                    assert(db[k].id != f.id);
                }
            }
        },
    }
}

/// A verification counts the files that the index does not know, those that it
/// knows with another time, and the rest.
pub proof fn law_verification_counts_the_files(
    fs: Seq<FoundFile>,
    db: Seq<IndexedFile>,
    d: Drift,
    n: nat,
)
    requires
        n <= fs.len(),
    ensures
        sync::drifted(fs, db, d, n) == fs.take(n as int).filter(
            |f: FoundFile| stands(db, f, d),
        ).len(),
    decreases n,
{
    let keep = |f: FoundFile| stands(db, f, d);
    if n == 0 {
        reveal(Seq::filter);
        assert(fs.take(0).filter(keep) =~= Seq::empty());
    } else {
        law_verification_counts_the_files(fs, db, d, (n - 1) as nat);
        signals::lemma_filter_take(fs, n - 1, keep);
        lemma_stands(db, fs[n - 1], d);
    }
}

/// A rebuild reports each entry that failed, in order, by its identifier and
/// what went wrong, and no other.
pub proof fn law_rebuild_reports_each_failure(
    entries: Seq<Id>,
    outcomes: Seq<Result<(), CoreError>>,
    n: nat,
    i: int,
) -> (k: int)
    requires
        n <= outcomes.len(),
        n <= entries.len(),
        0 <= i < n,
    ensures
        outcomes[i] matches Err(e) ==> 0 <= k < sync::rebuild_errors(entries, outcomes, n).len()
            && k <= i && sync::rebuild_errors(entries, outcomes, n)[k] == "entry "@
            + ids::text_of_id(entries[i]) + ": "@ + e@.message(),
        sync::rebuild_errors(entries, outcomes, n).len() == outcomes.take(n as int).filter(
            |o: Result<(), CoreError>| o is Err,
        ).len(),
    decreases n,
{
    let keep = |o: Result<(), CoreError>| o is Err;
    let errors = sync::rebuild_errors(entries, outcomes, n);
    let before = sync::rebuild_errors(entries, outcomes, (n - 1) as nat);
    signals::lemma_filter_take(outcomes, n - 1, keep);
    if n == 1 {
        reveal(Seq::filter);
        assert(outcomes.take(0).filter(keep) =~= Seq::empty());
    }
    if let Err(e) = outcomes[n - 1] {
        assert("entry "@ + ids::text_of_id(entries[n - 1]) + ": "@ + Seq::<char>::empty()
            + e@.message() =~= "entry "@ + ids::text_of_id(entries[n - 1]) + ": "@ + e@.message());
    }
    if i < n - 1 {
        let k = law_rebuild_reports_each_failure(entries, outcomes, (n - 1) as nat, i);
        if outcomes[i] is Err {
            assert(errors[k] == before[k]);
        }
        k
    } else {
        if n > 1 {
            let k = law_rebuild_reports_each_failure(entries, outcomes, (n - 1) as nat, 0);
            lemma_filter_len(outcomes.take(n - 1), keep);
        }
        before.len() as int
    }
}

proof fn lemma_filter_len<A>(s: Seq<A>, keep: spec_fn(A) -> bool)
    ensures
        s.filter(keep).len() <= s.len(),
{
    signals::lemma_filter_rows(s, keep);
}

/// An export counts what was written, and reports each entry that failed, in
/// order and with the step that did.
pub proof fn law_export_reports_each_failure(
    entries: Seq<Id>,
    outcomes: Seq<ExportOutcome>,
    n: nat,
)
    requires
        n <= outcomes.len(),
        n <= entries.len(),
    ensures
        sync::exports(outcomes, n) == outcomes.take(n as int).filter(
            |o: ExportOutcome| o is Exported,
        ).len(),
        sync::export_errors(entries, outcomes, n).len() == outcomes.take(n as int).filter(
            |o: ExportOutcome| !(o is Exported) && !(o is Skipped),
        ).len(),
        forall|i: int|
            0 <= i < n ==> match #[trigger] outcomes[i] {
                ExportOutcome::GetFailed(e) => sync::export_errors(entries, outcomes, n).contains(
                    "entry "@ + ids::text_of_id(entries[i]) + ": "@ + "get failed: "@ + e@.message(),
                ),
                ExportOutcome::WriteFailed(e) => sync::export_errors(entries, outcomes, n).contains(
                    "entry "@ + ids::text_of_id(entries[i]) + ": "@ + "write failed: "@
                        + e@.message(),
                ),
                ExportOutcome::UpdateFailed(e) => sync::export_errors(
                    entries,
                    outcomes,
                    n,
                ).contains(
                    "entry "@ + ids::text_of_id(entries[i]) + ": "@ + "fs_path update failed: "@
                        + e@.message(),
                ),
                _ => true,
            },
    decreases n,
{
    let done = |o: ExportOutcome| o is Exported;
    let failed = |o: ExportOutcome| !(o is Exported) && !(o is Skipped);
    if n == 0 {
        reveal(Seq::filter);
        assert(outcomes.take(0).filter(done) =~= Seq::empty());
        assert(outcomes.take(0).filter(failed) =~= Seq::empty());
    } else {
        law_export_reports_each_failure(entries, outcomes, (n - 1) as nat);
        signals::lemma_filter_take(outcomes, n - 1, done);
        signals::lemma_filter_take(outcomes, n - 1, failed);
        let before = sync::export_errors(entries, outcomes, (n - 1) as nat);
        let errors = sync::export_errors(entries, outcomes, n);
        assert forall|s: Seq<char>| #[trigger] before.contains(s) implies errors.contains(s) by {
            let k = choose|k: int| 0 <= k < before.len() && before[k] == s;
            assert(errors[k] == s);
        }
        if failed(outcomes[n - 1]) {
            assert(errors.last() == errors[before.len() as int]);
        }
    }
}

/// The entries of a directory are its directories whose names are identifiers,
/// in order; the attachments its files but the entry's own, as they are.
pub proof fn law_directories_are_read(items: Seq<DirItem>, n: nat)
    requires
        n <= items.len(),
    ensures
        content_store::entry_ids(items, n) == items.take(n as int).filter(
            |item: DirItem|
                item.is_dir && item.name is Some && ids::id_of_text(item.name->0@) is Some,
        ).map_values(|item: DirItem| ids::id_of_text(item.name->0@)->0),
        content_store::attachments(items, n) == items.take(n as int).filter(
            |item: DirItem| item.is_file && item.name is Some && item.name->0@ != "entry.nomai"@,
        ).map_values(
            |item: DirItem|
                AttachmentSpec {
                    filename: item.name->0@,
                    size: item.size,
                    modified: item.modified,
                },
        ),
    decreases n,
{
    let is_entry = |item: DirItem|
        item.is_dir && item.name is Some && ids::id_of_text(item.name->0@) is Some;
    let id = |item: DirItem| ids::id_of_text(item.name->0@)->0;
    let is_own = |item: DirItem|
        item.is_file && item.name is Some && item.name->0@ != "entry.nomai"@;
    let meta = |item: DirItem|
        AttachmentSpec { filename: item.name->0@, size: item.size, modified: item.modified };
    if n == 0 {
        reveal(Seq::filter);
        assert(items.take(0).filter(is_entry) =~= Seq::empty());
        assert(items.take(0).filter(is_own) =~= Seq::empty());
        assert(content_store::entry_ids(items, n) =~= items.take(0).filter(is_entry).map_values(
            id,
        ));
        assert(content_store::attachments(items, n) =~= items.take(0).filter(is_own).map_values(
            meta,
        ));
    } else {
        law_directories_are_read(items, (n - 1) as nat);
        signals::lemma_filter_take(items, n - 1, is_entry);
        signals::lemma_filter_take(items, n - 1, is_own);
        let a = items.take(n - 1).filter(is_entry);
        let b = items.take(n - 1).filter(is_own);
        let item = items[n - 1];
        assert(a.push(item).map_values(id) =~= a.map_values(id).push(id(item)));
        assert(b.push(item).map_values(meta) =~= b.map_values(meta).push(meta(item)));
    }
}

/// A name is safe where it is no way to another place: not empty, not a dot or
/// two, not a home directory, and without a separator or a character that file
/// systems give a meaning.
pub proof fn law_safe_names(s: Seq<char>)
    ensures
        content_store::is_safe(s) <==> {
            &&& s.len() > 0
            &&& s[0] != '~'
            &&& s != seq!['.']
            &&& s != seq!['.', '.']
            &&& !s.contains('/') && !s.contains('\\') && !s.contains('\0') && !s.contains(':')
            &&& !s.contains('<') && !s.contains('>') && !s.contains('*') && !s.contains('?')
            &&& !s.contains('|') && !s.contains('"')
        },
{
    reveal_strlit(".");
    reveal_strlit("..");
    assert("."@ =~= seq!['.']);
    assert(".."@ =~= seq!['.', '.']);
    if content_store::is_safe(s) {
        assert forall|c: char| content_store::is_forbidden(c) implies !#[trigger] s.contains(c) by {
            if s.contains(c) {
                let i = choose|i: int| 0 <= i < s.len() && s[i] == c;
                assert(!content_store::is_forbidden(s[i]));
            }
        }
        assert(content_store::is_forbidden('/') && content_store::is_forbidden('\\'));
    }
    if !s.contains('/') && !s.contains('\\') && !s.contains('\0') && !s.contains(':')
        && !s.contains('<') && !s.contains('>') && !s.contains('*') && !s.contains('?')
        && !s.contains('|') && !s.contains('"') {
        assert forall|i: int| 0 <= i < s.len() implies !content_store::is_forbidden(
            #[trigger] s[i],
        ) by {
            assert(s.contains(s[i]));
        }
    }
}

/// Of identifiers those are short-lived that name a short-lived entry.
pub proof fn law_short_lived_among(rows: Seq<EntryRowSpec>, asked: Seq<Id>, id: Id)
    ensures
        rows.filter(entry_list::transient_among(asked)).map_values(
            |row: EntryRowSpec| row.id,
        ).contains(id) <==> asked.contains(id) && exists|i: int|
            0 <= i < rows.len() && (#[trigger] rows[i]).id == id && visibility::is_transient(
                rows[i].attrs,
            ),
{
    let keep = entry_list::transient_among(asked);
    let name = |row: EntryRowSpec| row.id;
    let kept = rows.filter(keep);
    let out = kept.map_values(name);
    signals::lemma_filter_rows(rows, keep);
    if out.contains(id) {
        let k = choose|k: int| 0 <= k < out.len() && out[k] == id;
        assert(kept.contains(kept[k]));
        let i = choose|i: int| 0 <= i < rows.len() && rows[i] == kept[k];
        assert(rows[i].id == id);
    }
    if asked.contains(id) && exists|i: int|
        0 <= i < rows.len() && (#[trigger] rows[i]).id == id && visibility::is_transient(
            rows[i].attrs,
        ) {
        let i = choose|i: int|
            0 <= i < rows.len() && (#[trigger] rows[i]).id == id && visibility::is_transient(
                rows[i].attrs,
            );
        assert(keep(rows[i]));
        assert(rows.contains(rows[i]));
        assert(kept.contains(rows[i]));
        let k = choose|k: int| 0 <= k < kept.len() && kept[k] == rows[i];
        assert(out[k] == id);
    }
}

/// Attachments are listed by their names: none stands behind one whose name
/// comes after its own, and none is lost or added.
pub proof fn law_attachments_run_by_name(items: Seq<DirItem>)
    ensures
        ({
            let all = content_store::attachments(items, items.len());
            let out = ordering::in_order(all, content_store::by_name());
            &&& out.to_multiset() == all.to_multiset()
            &&& forall|i: int, j: int|
                #![trigger out[i], out[j]]
                0 <= i < j < out.len() ==> out[i].filename == out[j].filename || text::precedes(
                    out[i].filename,
                    out[j].filename,
                )
        }),
{
    let all = content_store::attachments(items, items.len());
    let before = content_store::by_name();
    let out = ordering::in_order(all, before);
    content_store::law_attachments_are_listed_by_name(items);
    assert forall|i: int, j: int|
        #![trigger out[i], out[j]]
        0 <= i < j < out.len() implies out[i].filename == out[j].filename || text::precedes(
        out[i].filename,
        out[j].filename,
    ) by {
        assert(!before(out[j], out[i]));
        text::law_text_order_is_total(out[i].filename, out[j].filename);
    }
}

/// What the index says of files is what its rows say: the same entries in the
/// same order, each with the time that was recorded, read where it can be.
pub proof fn law_indexed_files_are_the_rows(
    files: Seq<IndexedFile>,
    rows: Seq<EntryRowSpec>,
    i: int,
)
    requires
        sync::are_rows_for(files, rows),
        0 <= i < rows.len(),
    ensures
        files.len() == rows.len(),
        files[i].id == rows[i].id,
        rows[i].fs_mtime is None ==> files[i].mtime is None,
        rows[i].fs_mtime is Some ==> files[i].mtime is Some && files[i].mtime->0.text@
            == rows[i].fs_mtime->0 && files[i].mtime->0.time == time::time_of_text(
            rows[i].fs_mtime->0,
        ),
{
}

} // verus!
