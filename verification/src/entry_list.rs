//! Listing entries, and purging those that are short-lived.
use vstd::prelude::*;
use vstd::string::*;

use crate::block_model::{Block, BlockRow};
use crate::blocks;
use crate::content::{ContentDb, ContentSpec};
use crate::entry_model::{
    self, AgeThenId, CandidateSpec, EntryListQuery, EntryListResult, PurgeTransientResult,
    TransientCandidate, PURGE_PREVIEW_LIMIT,
};
use crate::ids::Id;
use crate::model::{Entry, EntryRow, EntryRowSpec, EntrySpec};
use crate::ordering;
use crate::signals;
use crate::tables::{self, Copied};
use crate::text;
use crate::time::Timestamp;
use crate::visibility;

verus! {

impl Copied for EntryRow {
    fn copy(&self) -> (r: EntryRow) {
        EntryRow {
            id: self.id,
            title: self.title.clone(),
            tags: tables::copy_texts(&self.tags),
            attrs: self.attrs.copy(),
            source: tables::copy_opt(&self.source),
            fs_path: tables::copy_opt(&self.fs_path),
            fs_mtime: tables::copy_opt(&self.fs_mtime),
            created_at: self.created_at,
            updated_at: self.updated_at,
        }
    }
}

/// How often `tag` stands among the first `n` tags.
pub open spec fn times(tags: Seq<Seq<char>>, tag: Seq<char>, n: nat) -> nat
    decreases n,
{
    if n == 0 {
        0
    } else {
        times(tags, tag, (n - 1) as nat) + if tags[n - 1] == tag {
            1nat
        } else {
            0nat
        }
    }
}

/// How often an entry is listed: once, but for each time it has the tag that
/// is asked for, and not at all where it is not to be seen.
pub open spec fn listings(row: EntryRowSpec, q: EntryListQuery, include_benchmark: bool) -> nat {
    if !include_benchmark && visibility::is_benchmark(row.attrs) {
        0
    } else if q.transient is Some && q.transient->0 != visibility::is_transient(row.attrs) {
        0
    } else {
        match q.tag {
            Some(t) => times(row.tags, t@, row.tags.len()),
            None => 1,
        }
    }
}

/// The listings of the first `n` entries.
pub open spec fn found(
    rows: Seq<EntryRowSpec>,
    q: EntryListQuery,
    include_benchmark: bool,
    n: nat,
) -> Seq<EntryRowSpec>
    decreases n,
{
    if n == 0 {
        Seq::empty()
    } else {
        let row = rows[n - 1];
        found(rows, q, include_benchmark, (n - 1) as nat) + Seq::new(
            listings(row, q, include_benchmark),
            |k: int| row,
        )
    }
}

/// The entries of one page.
pub open spec fn page_of(db: ContentSpec, q: EntryListQuery, include_benchmark: bool) -> Seq<
    EntryRowSpec,
> {
    tables::page(
        ordering::in_order(
            found(db.entries, q, include_benchmark, db.entries.len()),
            entry_model::by_time(q.order),
        ),
        q.offset as nat,
        q.limit as nat,
    )
}

/// A listed entry, with its blocks where they are asked for.
pub open spec fn shown(row: EntryRowSpec, blocks: Seq<BlockRow>, q: EntryListQuery) -> EntrySpec {
    row.with_blocks(
        if q.include_blocks == Some(true) {
            blocks::blocks_of(blocks, row.id)
        } else {
            Seq::empty()
        },
    )
}

fn count_tag(tags: &Vec<String>, tag: &str) -> (r: usize)
    ensures
        r == times(text::texts(tags@), tag@, tags@.len()),
{
    let ghost held = text::texts(tags@);
    let mut count: usize = 0;
    let mut i: usize = 0;
    while i < tags.len()
        invariant
            i <= tags.len(),
            count <= i,
            held == text::texts(tags@),
            count == times(held, tag@, i as nat),
        decreases tags.len() - i,
    {
        proof {
            assert(held[i as int] == tags@[i as int]@);
        }
        if text::same(tags[i].as_str(), tag) {
            count += 1;
        }
        i += 1;
    }
    count
}

fn count_listings(row: &EntryRow, q: &EntryListQuery, include_benchmark: bool) -> (r: usize)
    ensures
        r == listings(row@, *q, include_benchmark),
{
    if !include_benchmark && visibility::benchmark(&row.attrs) {
        return 0;
    }
    if let Some(t) = q.transient {
        if t != visibility::transient(&row.attrs) {
            return 0;
        }
    }
    match &q.tag {
        Some(t) => {
            proof {
                assert(text::texts(row.tags@).len() == row.tags@.len());
            }
            count_tag(&row.tags, t.as_str())
        },
        None => 1,
    }
}

fn find_listings(entries: &Vec<EntryRow>, q: &EntryListQuery, include_benchmark: bool) -> (r: Vec<
    EntryRow,
>)
    ensures
        ordering::views(r@) == found(
            ordering::views(entries@),
            *q,
            include_benchmark,
            entries@.len(),
        ),
{
    let ghost held = ordering::views(entries@);
    let mut out: Vec<EntryRow> = Vec::new();
    let mut i: usize = 0;
    proof {
        assert(ordering::views(out@) =~= Seq::empty());
    }
    while i < entries.len()
        invariant
            i <= entries.len(),
            held == ordering::views(entries@),
            ordering::views(out@) == found(held, *q, include_benchmark, i as nat),
        decreases entries.len() - i,
    {
        let row = &entries[i];
        proof {
            assert(held[i as int] == row@);
        }
        let n = count_listings(row, q, include_benchmark);
        let ghost base = ordering::views(out@);
        let ghost same = |k: int| row@;
        let mut k: usize = 0;
        proof {
            assert(base + Seq::new(0, same) =~= base);
        }
        while k < n
            invariant
                k <= n,
                same == (|k: int| row@),
                ordering::views(out@) == base + Seq::new(k as nat, same),
            decreases n - k,
        {
            let ghost before = out@;
            let copied = row.copy();
            let ghost view = copied@;
            out.push(copied);
            proof {
                assert(ordering::views(out@) =~= ordering::views(before).push(view));
                assert(base + Seq::new((k + 1) as nat, same) =~= (base + Seq::new(
                    k as nat,
                    same,
                )).push(view));
            }
            k += 1;
        }
        i += 1;
    }
    out
}

/// List entries, one page of them, with their blocks where those are asked
/// for. Benchmark fixtures are listed only where they are shown.
pub fn list_entries(db: &ContentDb, q: &EntryListQuery, include_benchmark: bool) -> (r:
    EntryListResult)
    ensures
        ({
            let page = page_of(db@, *q, include_benchmark);
            let total = found(db@.entries, *q, include_benchmark, db@.entries.len()).len();
            &&& ordering::views(r.items@) == page.map_values(
                |row: EntryRowSpec| shown(row, db@.blocks, *q),
            )
            &&& r.total == total
            &&& r.has_more == (q.offset + page.len() < total)
        }),
{
    proof {
        assert(db@.entries.len() == db.entries@.len());
    }
    let rows = find_listings(&db.entries, q, include_benchmark);
    proof {
        assert(ordering::views(rows@).len() == rows@.len());
    }
    let total = rows.len() as u64;
    let sorted = ordering::put_in_order(rows, &q.order);
    let page = tables::take_page(sorted, q.offset, q.limit);
    let ghost held = ordering::views(page@);
    let ghost show = |row: EntryRowSpec| shown(row, db@.blocks, *q);
    let with_blocks = match q.include_blocks {
        Some(b) => b,
        None => false,
    };
    let mut items: Vec<Entry> = Vec::new();
    let mut i: usize = 0;
    proof {
        assert(ordering::views(items@) =~= held.map_values(show).take(0));
    }
    while i < page.len()
        invariant
            i <= page.len(),
            held == ordering::views(page@),
            show == (|row: EntryRowSpec| shown(row, db@.blocks, *q)),
            with_blocks == (q.include_blocks == Some(true)),
            ordering::views(items@) == held.map_values(show).take(i as int),
        decreases page.len() - i,
    {
        proof {
            assert(held[i as int] == page@[i as int]@);
        }
        let blocks: Vec<Block> = if with_blocks {
            blocks::copy_blocks(&db.blocks, page[i].id)
        } else {
            Vec::new()
        };
        proof {
            if !with_blocks {
                assert(ordering::views(blocks@) =~= Seq::empty());
            }
        }
        let ghost before = items@;
        let entry = page[i].to_entry(blocks);
        let ghost view = entry@;
        items.push(entry);
        proof {
            let all = held.map_values(show);
            assert(view == all[i as int]);
            assert(ordering::views(items@) =~= ordering::views(before).push(view));
            assert(all.take(i + 1) =~= all.take(i as int).push(all[i as int]));
        }
        i += 1;
    }
    proof {
        let all = held.map_values(show);
        assert(all.take(i as int) =~= all);
        assert(held.len() == page@.len());
    }
    let has_more = (q.offset as u128 + page.len() as u128) < total as u128;
    EntryListResult { items, total, has_more }
}

/// The entry is short-lived and is one of `ids`.
pub open spec fn transient_among(ids: Seq<Id>) -> spec_fn(EntryRowSpec) -> bool {
    |row: EntryRowSpec| visibility::is_transient(row.attrs) && ids.contains(row.id)
}

/// Which of `ids` are short-lived entries.
pub fn transient_ids_among(entries: &Vec<EntryRow>, ids: &Vec<Id>) -> (r: Vec<Id>)
    ensures
        r@ == ordering::views(entries@).filter(transient_among(ids@)).map_values(
            |row: EntryRowSpec| row.id,
        ),
{
    let ghost keep = transient_among(ids@);
    let ghost name = |row: EntryRowSpec| row.id;
    let ghost held = ordering::views(entries@);
    let mut out: Vec<Id> = Vec::new();
    let mut i: usize = 0;
    proof {
        assert(held.take(0).filter(keep) =~= Seq::empty()) by {
            reveal(Seq::filter);
        }
        assert(out@ =~= held.take(0).filter(keep).map_values(name));
    }
    while i < entries.len()
        invariant
            i <= entries.len(),
            held == ordering::views(entries@),
            keep == transient_among(ids@),
            name == (|row: EntryRowSpec| row.id),
            out@ == held.take(i as int).filter(keep).map_values(name),
        decreases entries.len() - i,
    {
        proof {
            assert(held[i as int] == entries@[i as int]@);
            signals::lemma_filter_take(held, i as int, keep);
        }
        if visibility::transient(&entries[i].attrs) && signals::contains_id(ids, entries[i].id) {
            let ghost before = held.take(i as int).filter(keep);
            out.push(entries[i].id);
            proof {
                assert(before.push(held[i as int]).map_values(name) =~= before.map_values(
                    name,
                ).push(held[i as int].id));
            }
        }
        i += 1;
    }
    proof {
        assert(held.take(i as int) =~= held);
    }
    out
}

/// Whether an entry is a benchmark fixture.
pub fn is_benchmark_entry(entries: &Vec<EntryRow>, id: Id) -> (r: bool)
    ensures
        r == (tables::row_of::<EntryRow>(ordering::views(entries@), id) matches Some(i)
            && visibility::is_benchmark(ordering::views(entries@)[i].attrs)),
{
    match tables::find_row(entries, id) {
        Some(i) => {
            proof {
                assert(ordering::views(entries@)[i as int] == entries@[i as int]@);
            }
            visibility::benchmark(&entries[i].attrs)
        },
        None => false,
    }
}

/// What a purge says of an entry.
pub open spec fn candidate(row: EntryRowSpec) -> CandidateSpec {
    CandidateSpec { id: row.id, title: row.title, created_at: row.created_at }
}

/// The entry is short-lived, and was created before the time that is given.
pub open spec fn purgeable(before: Option<Timestamp>) -> spec_fn(EntryRowSpec) -> bool {
    |row: EntryRowSpec|
        visibility::is_transient(row.attrs) && (before is None || row.created_at.before(before->0))
}

/// The entries that a purge removes, oldest first.
pub open spec fn purge_rows(rows: Seq<EntryRowSpec>, before: Option<Timestamp>) -> Seq<
    CandidateSpec,
> {
    ordering::in_order(
        rows.filter(purgeable(before)).map_values(|row: EntryRowSpec| candidate(row)),
        entry_model::by_age(),
    )
}

/// Find the short-lived entries to purge, oldest first: all of them, or those
/// created before a given time.
pub fn transient_candidates(entries: &Vec<EntryRow>, before: Option<Timestamp>) -> (r: Vec<
    TransientCandidate,
>)
    ensures
        ordering::views(r@) == purge_rows(ordering::views(entries@), before),
{
    let ghost keep = purgeable(before);
    let ghost name = |row: EntryRowSpec| candidate(row);
    let ghost held = ordering::views(entries@);
    let mut out: Vec<TransientCandidate> = Vec::new();
    let mut i: usize = 0;
    proof {
        assert(held.take(0).filter(keep) =~= Seq::empty()) by {
            reveal(Seq::filter);
        }
        assert(ordering::views(out@) =~= held.take(0).filter(keep).map_values(name));
    }
    while i < entries.len()
        invariant
            i <= entries.len(),
            held == ordering::views(entries@),
            keep == purgeable(before),
            name == (|row: EntryRowSpec| candidate(row)),
            ordering::views(out@) == held.take(i as int).filter(keep).map_values(name),
        decreases entries.len() - i,
    {
        let row = &entries[i];
        proof {
            assert(held[i as int] == row@);
            signals::lemma_filter_take(held, i as int, keep);
        }
        let old_enough = match before {
            Some(t) => row.created_at.is_before(&t),
            None => true,
        };
        if old_enough && visibility::transient(&row.attrs) {
            let ghost kept = held.take(i as int).filter(keep);
            let ghost old_out = out@;
            let c = TransientCandidate {
                id: row.id,
                title: row.title.clone(),
                created_at: row.created_at,
            };
            let ghost view = c@;
            out.push(c);
            proof {
                assert(ordering::views(out@) =~= ordering::views(old_out).push(view));
                assert(kept.push(held[i as int]).map_values(name) =~= kept.map_values(name).push(
                    view,
                ));
            }
        }
        i += 1;
    }
    proof {
        assert(held.take(i as int) =~= held);
    }
    ordering::put_in_order(out, &())
}

/// The preview of a purge: as many candidates as it shows.
pub open spec fn preview(rows: Seq<CandidateSpec>) -> Seq<CandidateSpec> {
    tables::page(rows, 0, PURGE_PREVIEW_LIMIT as nat)
}

/// The candidates that could be deleted, of the first `n`. An outcome is the
/// error that a deletion met, where it met one.
pub open spec fn deleted(
    rows: Seq<CandidateSpec>,
    outcomes: Seq<Option<String>>,
    n: nat,
) -> Seq<Id>
    decreases n,
{
    if n == 0 {
        Seq::empty()
    } else {
        let before = deleted(rows, outcomes, (n - 1) as nat);
        if outcomes[n - 1] is None {
            before.push(rows[n - 1].id)
        } else {
            before
        }
    }
}

/// The candidates that could not be deleted, of the first `n`, with the errors.
pub open spec fn refused(
    rows: Seq<CandidateSpec>,
    outcomes: Seq<Option<String>>,
    n: nat,
) -> Seq<(Id, Seq<char>)>
    decreases n,
{
    if n == 0 {
        Seq::empty()
    } else {
        let before = refused(rows, outcomes, (n - 1) as nat);
        match outcomes[n - 1] {
            Some(e) => before.push((rows[n - 1].id, e@)),
            None => before,
        }
    }
}

/// What is reported of failures.
pub open spec fn reports(failed: Seq<(Id, String)>) -> Seq<(Id, Seq<char>)> {
    failed.map_values(|f: (Id, String)| (f.0, f.1@))
}

fn preview_of(rows: &Vec<TransientCandidate>) -> (r: Vec<TransientCandidate>)
    ensures
        ordering::views(r@) == preview(ordering::views(rows@)),
{
    tables::take_page(tables::copy_rows(rows), 0, PURGE_PREVIEW_LIMIT as u32)
}

/// What a purge would remove. Nothing is deleted.
pub fn purge_preview(rows: &Vec<TransientCandidate>) -> (r: PurgeTransientResult)
    ensures
        r.dry_run,
        r.total_candidates == rows@.len(),
        ordering::views(r.candidates@) == preview(ordering::views(rows@)),
        r.truncated == (rows@.len() > PURGE_PREVIEW_LIMIT),
        r.deleted_ids@.len() == 0,
        r.failed@.len() == 0,
{
    PurgeTransientResult {
        dry_run: true,
        total_candidates: rows.len() as u64,
        candidates: preview_of(rows),
        truncated: rows.len() > PURGE_PREVIEW_LIMIT,
        deleted_ids: Vec::new(),
        failed: Vec::new(),
    }
}

/// What a purge removed. A deletion that failed does not stop the others.
pub fn purge_result(rows: &Vec<TransientCandidate>, outcomes: &Vec<Option<String>>) -> (r:
    PurgeTransientResult)
    requires
        outcomes.len() == rows.len(),
    ensures
        !r.dry_run,
        r.total_candidates == rows@.len(),
        ordering::views(r.candidates@) == preview(ordering::views(rows@)),
        r.truncated == (rows@.len() > PURGE_PREVIEW_LIMIT),
        r.deleted_ids@ == deleted(ordering::views(rows@), outcomes@, rows@.len()),
        reports(r.failed@) == refused(ordering::views(rows@), outcomes@, rows@.len()),
{
    let ghost held = ordering::views(rows@);
    let mut deleted_ids: Vec<Id> = Vec::new();
    let mut failed: Vec<(Id, String)> = Vec::new();
    let mut i: usize = 0;
    proof {
        assert(reports(failed@) =~= Seq::empty());
    }
    while i < rows.len()
        invariant
            i <= rows.len(),
            outcomes.len() == rows.len(),
            held == ordering::views(rows@),
            deleted_ids@ == deleted(held, outcomes@, i as nat),
            reports(failed@) == refused(held, outcomes@, i as nat),
        decreases rows.len() - i,
    {
        proof {
            assert(held[i as int] == rows@[i as int]@);
        }
        match &outcomes[i] {
            None => {
                deleted_ids.push(rows[i].id);
            },
            Some(e) => {
                let ghost before = failed@;
                failed.push((rows[i].id, e.clone()));
                proof {
                    assert(reports(failed@) =~= reports(before).push(
                        (rows@[i as int].id, e@),
                    ));
                }
            },
        }
        i += 1;
    }
    PurgeTransientResult {
        dry_run: false,
        total_candidates: rows.len() as u64,
        candidates: preview_of(rows),
        truncated: rows.len() > PURGE_PREVIEW_LIMIT,
        deleted_ids,
        failed,
    }
}

/// The entry is a benchmark fixture.
pub open spec fn is_fixture() -> spec_fn(EntryRowSpec) -> bool {
    |row: EntryRowSpec| visibility::is_benchmark(row.attrs)
}

/// The benchmark fixtures, in the order in which they were created.
pub open spec fn fixtures(rows: Seq<EntryRowSpec>) -> Seq<CandidateSpec> {
    ordering::in_order(
        rows.filter(is_fixture()).map_values(|row: EntryRowSpec| candidate(row)),
        entry_model::by_age_and_id(),
    )
}

/// Find the benchmark fixtures to purge, in the order in which they were
/// created.
pub fn benchmark_ids(entries: &Vec<EntryRow>) -> (r: Vec<Id>)
    ensures
        r@ == fixtures(ordering::views(entries@)).map_values(|c: CandidateSpec| c.id),
{
    let ghost keep = is_fixture();
    let ghost name = |row: EntryRowSpec| candidate(row);
    let ghost held = ordering::views(entries@);
    let mut out: Vec<TransientCandidate> = Vec::new();
    let mut i: usize = 0;
    proof {
        assert(held.take(0).filter(keep) =~= Seq::empty()) by {
            reveal(Seq::filter);
        }
        assert(ordering::views(out@) =~= held.take(0).filter(keep).map_values(name));
    }
    while i < entries.len()
        invariant
            i <= entries.len(),
            held == ordering::views(entries@),
            keep == is_fixture(),
            name == (|row: EntryRowSpec| candidate(row)),
            ordering::views(out@) == held.take(i as int).filter(keep).map_values(name),
        decreases entries.len() - i,
    {
        let row = &entries[i];
        proof {
            assert(held[i as int] == row@);
            signals::lemma_filter_take(held, i as int, keep);
        }
        if visibility::benchmark(&row.attrs) {
            let ghost kept = held.take(i as int).filter(keep);
            let ghost old_out = out@;
            let c = TransientCandidate {
                id: row.id,
                title: row.title.clone(),
                created_at: row.created_at,
            };
            let ghost view = c@;
            out.push(c);
            proof {
                assert(ordering::views(out@) =~= ordering::views(old_out).push(view));
                assert(kept.push(held[i as int]).map_values(name) =~= kept.map_values(name).push(
                    view,
                ));
            }
        }
        i += 1;
    }
    proof {
        assert(held.take(i as int) =~= held);
    }
    let sorted = ordering::put_in_order(out, &AgeThenId);
    let ghost rows = ordering::views(sorted@);
    let mut ids: Vec<Id> = Vec::new();
    let mut k: usize = 0;
    while k < sorted.len()
        invariant
            k <= sorted.len(),
            rows == ordering::views(sorted@),
            ids.len() == k,
            forall|j: int| 0 <= j < k ==> ids@[j] == (#[trigger] rows[j]).id,
        decreases sorted.len() - k,
    {
        proof {
            assert(rows[k as int] == sorted@[k as int]@);
        }
        ids.push(sorted[k].id);
        k += 1;
    }
    proof {
        assert(ids@ =~= rows.map_values(|c: CandidateSpec| c.id));
    }
    ids
}

} // verus!
