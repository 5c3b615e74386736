//! What holds of a list of entries, and of the entries that a purge removes.
use vstd::prelude::*;
use vstd::string::*;

use crate::block_model::{self, Block, BlockRow};
use crate::blocks;
use crate::content::{self, ContentSpec};
use crate::entry_list;
use crate::entry_model::{self, CandidateSpec, EntryListOrder, EntryListQuery};
use crate::ids::Id;
use crate::model::{EntryRowSpec, EntrySpec};
use crate::ordering::{self, Order};
use crate::tables;
use crate::time::Timestamp;
use crate::visibility;

verus! {

/// `a` is `b` or an earlier time.
pub open spec fn no_later(a: Timestamp, b: Timestamp) -> bool {
    a.seconds < b.seconds || (a.seconds == b.seconds && a.nanos <= b.nanos)
}

/// The items that a list of entries shows.
pub open spec fn items_of(db: ContentSpec, q: EntryListQuery, include_benchmark: bool) -> Seq<
    EntrySpec,
> {
    entry_list::page_of(db, q, include_benchmark).map_values(
        |row: EntryRowSpec| entry_list::shown(row, db.blocks, q),
    )
}

/// A page of rows in order is in order.
pub(crate) proof fn lemma_ordered_page<A>(
    rows: Seq<A>,
    before: Order<A>,
    offset: nat,
    limit: nat,
)
    requires
        ordering::is_order(before),
    ensures
        ({
            let page = tables::page(ordering::in_order(rows, before), offset, limit);
            &&& ordering::is_ordered(page, before)
            &&& forall|i: int| 0 <= i < page.len() ==> rows.contains(#[trigger] page[i])
            &&& offset == 0 && page.len() < limit ==> page.len() == rows.len() && forall|row: A| #[trigger]
                rows.contains(row) ==> page.contains(row)
            &&& offset <= rows.len() ==> page.len() == if limit <= rows.len() - offset {
                limit as int
            } else {
                rows.len() - offset
            }
            &&& offset >= rows.len() ==> page.len() == 0
        }),
{
    let all = ordering::in_order(rows, before);
    let page = tables::page(all, offset, limit);
    ordering::law_in_order(rows, before);
    ordering::lemma_in_order_members(rows, before);
    let from = if offset <= all.len() {
        offset as int
    } else {
        all.len() as int
    };
    assert forall|i: int, j: int| 0 <= i < j < page.len() implies !before(
        #[trigger] page[j],
        #[trigger] page[i],
    ) by {
        assert(page[i] == all[from + i]);
        assert(page[j] == all[from + j]);
    }
    assert forall|i: int| 0 <= i < page.len() implies rows.contains(#[trigger] page[i]) by {
        assert(page[i] == all[from + i]);
        assert(all.contains(page[i]));
    }
    if offset == 0 && page.len() < limit {
        assert(page =~= all);
        assert forall|row: A| #[trigger] rows.contains(row) implies page.contains(row) by {
            assert(all.contains(row));
        }
    }
}

/// A list by creation (or update) runs from the latest to the earliest, or the
/// other way round, as was asked.
pub proof fn law_list_runs_by_time(db: ContentSpec, q: EntryListQuery, include_benchmark: bool)
    ensures
        ({
            let items = items_of(db, q, include_benchmark);
            forall|i: int, j: int|
                #![trigger items[i], items[j]]
                0 <= i < j < items.len() ==> match q.order {
                    EntryListOrder::CreatedDesc => no_later(
                        items[j].created_at,
                        items[i].created_at,
                    ),
                    EntryListOrder::CreatedAsc => no_later(
                        items[i].created_at,
                        items[j].created_at,
                    ),
                    EntryListOrder::UpdatedDesc => no_later(
                        items[j].updated_at,
                        items[i].updated_at,
                    ),
                    EntryListOrder::UpdatedAsc => no_later(
                        items[i].updated_at,
                        items[j].updated_at,
                    ),
                }
        }),
{
    let rows = entry_list::found(db.entries, q, include_benchmark, db.entries.len());
    let before = entry_model::by_time(q.order);
    let page = entry_list::page_of(db, q, include_benchmark);
    lemma_ordered_page(rows, before, q.offset as nat, q.limit as nat);
    let items = items_of(db, q, include_benchmark);
    assert forall|i: int, j: int|
        #![trigger items[i], items[j]]
        0 <= i < j < items.len() implies match q.order {
        EntryListOrder::CreatedDesc => no_later(items[j].created_at, items[i].created_at),
        EntryListOrder::CreatedAsc => no_later(items[i].created_at, items[j].created_at),
        EntryListOrder::UpdatedDesc => no_later(items[j].updated_at, items[i].updated_at),
        EntryListOrder::UpdatedAsc => no_later(items[i].updated_at, items[j].updated_at),
    } by {
        assert(!before(page[j], page[i]));
    }
}

/// Two queries that ask for the same entries in the same order.
pub open spec fn same_list(p: EntryListQuery, q: EntryListQuery) -> bool {
    &&& tables::opt_text(p.tag) == tables::opt_text(q.tag)
    &&& p.transient == q.transient
    &&& p.order == q.order
    &&& p.include_blocks == q.include_blocks
}

proof fn lemma_same_found(
    rows: Seq<EntryRowSpec>,
    p: EntryListQuery,
    q: EntryListQuery,
    include_benchmark: bool,
    n: nat,
)
    requires
        same_list(p, q),
    ensures
        entry_list::found(rows, p, include_benchmark, n) == entry_list::found(
            rows,
            q,
            include_benchmark,
            n,
        ),
    decreases n,
{
    if n > 0 {
        lemma_same_found(rows, p, q, include_benchmark, (n - 1) as nat);
    }
}

/// Pages are cut from one list: what stands at a place of a later page stands
/// that many places further on in one page over all, and a page is short only
/// where the list ends. So no entry of a later page belongs before one of an
/// earlier page.
pub proof fn law_pages_are_cut_from_one_list(
    db: ContentSpec,
    whole: EntryListQuery,
    q: EntryListQuery,
    include_benchmark: bool,
    i: int,
)
    requires
        same_list(whole, q),
        whole.offset == 0,
    ensures
        ({
            let all = items_of(db, whole, include_benchmark);
            let items = items_of(db, q, include_benchmark);
            &&& items.len() <= q.limit
            &&& all.len() <= whole.limit
            &&& 0 <= i < items.len() && q.offset + i < all.len() ==> items[i] == all[q.offset + i]
            &&& 0 <= i < q.limit && q.offset + i < all.len() ==> i < items.len()
            &&& 0 <= i < items.len() && q.offset + i < whole.limit ==> q.offset + i < all.len()
        }),
{
    lemma_same_found(db.entries, whole, q, include_benchmark, db.entries.len());
    let rows = entry_list::found(db.entries, q, include_benchmark, db.entries.len());
    let before = entry_model::by_time(q.order);
    ordering::law_in_order(rows, before);
    let all = entry_list::page_of(db, whole, include_benchmark);
    let items = entry_list::page_of(db, q, include_benchmark);
    if 0 <= i < items.len() && q.offset + i < all.len() {
        assert(items[i] == all[q.offset + i]);
    }
}

proof fn lemma_times(tags: Seq<Seq<char>>, tag: Seq<char>, n: nat)
    requires
        n <= tags.len(),
    ensures
        entry_list::times(tags, tag, n) == tags.take(n as int).to_multiset().count(tag),
    decreases n,
{
    if n == 0 {
        assert(tags.take(0) =~= Seq::empty());
        tags.take(0).to_multiset_ensures();
    } else {
        lemma_times(tags, tag, (n - 1) as nat);
        vstd::seq_lib::to_multiset_build(tags.take(n - 1), tags[n - 1]);
        assert(tags.take(n as int) =~= tags.take(n - 1).push(tags[n - 1]));
    }
}

proof fn lemma_listed(
    rows: Seq<EntryRowSpec>,
    q: EntryListQuery,
    include_benchmark: bool,
    n: nat,
    row: EntryRowSpec,
)
    requires
        n <= rows.len(),
    ensures
        entry_list::found(rows, q, include_benchmark, n).to_multiset().count(row) == rows.take(
            n as int,
        ).to_multiset().count(row) * entry_list::listings(row, q, include_benchmark),
    decreases n,
{
    let out = entry_list::found(rows, q, include_benchmark, n);
    if n == 0 {
        assert(rows.take(0) =~= Seq::empty());
        rows.take(0).to_multiset_ensures();
        out.to_multiset_ensures();
        assert(0 * entry_list::listings(row, q, include_benchmark) == 0) by (nonlinear_arith);
    } else {
        let m = (n - 1) as nat;
        let last = rows[n - 1];
        lemma_listed(rows, q, include_benchmark, m, row);
        let before = entry_list::found(rows, q, include_benchmark, m);
        let times = entry_list::listings(last, q, include_benchmark);
        let more = Seq::new(times, |k: int| last);
        lemma_repeated(last, times, row);
        vstd::seq_lib::lemma_multiset_commutative(before, more);
        vstd::seq_lib::to_multiset_build(rows.take(n - 1), last);
        assert(rows.take(n as int) =~= rows.take(n - 1).push(last));
        let c = rows.take(n - 1).to_multiset().count(row);
        let t = entry_list::listings(row, q, include_benchmark);
        assert((c + 1) * t == c * t + t) by (nonlinear_arith);
    }
}

proof fn lemma_repeated(last: EntryRowSpec, times: nat, row: EntryRowSpec)
    ensures
        Seq::new(times, |k: int| last).to_multiset().count(row) == if row == last {
            times
        } else {
            0
        },
    decreases times,
{
    let out = Seq::new(times, |k: int| last);
    if times == 0 {
        assert(out =~= Seq::empty());
        out.to_multiset_ensures();
    } else {
        let m = (times - 1) as nat;
        lemma_repeated(last, m, row);
        let before = Seq::new(m, |k: int| last);
        assert(out =~= before.push(last));
        vstd::seq_lib::to_multiset_build(before, last);
    }
}

/// The item shows what the index holds of the entry, with its blocks where
/// those were asked for: all of them, by their ordinals.
pub open spec fn shows_entry(
    item: EntrySpec,
    row: EntryRowSpec,
    blocks: Seq<BlockRow>,
    with_blocks: bool,
) -> bool {
    &&& item.id == row.id
    &&& item.title == row.title
    &&& item.tags == row.tags
    &&& item.attrs == row.attrs
    &&& item.source == row.source
    &&& item.created_at == row.created_at
    &&& item.updated_at == row.updated_at
    &&& !with_blocks ==> item.blocks.len() == 0
    &&& with_blocks ==> are_blocks_of(item.blocks, blocks, row.id)
}

/// `own` are the blocks of an entry: those that name it, each as often as it is
/// there, by their ordinals.
pub open spec fn are_blocks_of(own: Seq<BlockRow>, blocks: Seq<BlockRow>, entry: Id) -> bool {
    &&& own.to_multiset() == blocks.filter(|b: BlockRow| b.entry_id == entry).to_multiset()
    &&& forall|i: int, j: int|
        #![trigger own[i], own[j]]
        0 <= i < j < own.len() ==> own[i].ordinal <= own[j].ordinal
}

/// The blocks that are read of an entry are its own, by their ordinals.
pub proof fn law_blocks_of_an_entry(blocks: Seq<BlockRow>, entry: Id)
    ensures
        are_blocks_of(blocks::blocks_of(blocks, entry), blocks, entry),
{
    let own = content::owned::<Block>(blocks, entry);
    assert(content::belongs::<Block>(entry) =~= (|b: BlockRow| b.entry_id == entry));
    let before = block_model::by_ordinal();
    ordering::law_in_order(own, before);
    let out = blocks::blocks_of(blocks, entry);
    assert forall|i: int, j: int|
        #![trigger out[i], out[j]]
        0 <= i < j < out.len() implies out[i].ordinal <= out[j].ordinal by {
        assert(!before(out[j], out[i]));
    }
}

/// An entry of this kind is asked for: fixtures only where they are shown, and
/// of the short-lived and the others those that were named.
pub open spec fn is_asked_for(row: EntryRowSpec, q: EntryListQuery, include_benchmark: bool) -> bool {
    &&& visibility::is_benchmark(row.attrs) ==> include_benchmark
    &&& q.transient == Some(true) ==> visibility::is_transient(row.attrs)
    &&& q.transient == Some(false) ==> !visibility::is_transient(row.attrs)
}

/// Everything on a page is an entry of the index that was asked for and has
/// the tag, shown as the index holds it.
pub proof fn law_listed_entries_were_asked_for(
    db: ContentSpec,
    q: EntryListQuery,
    include_benchmark: bool,
    i: int,
) -> (k: int)
    requires
        0 <= i < items_of(db, q, include_benchmark).len(),
    ensures
        0 <= k < db.entries.len(),
        shows_entry(
            items_of(db, q, include_benchmark)[i],
            db.entries[k],
            db.blocks,
            q.include_blocks == Some(true),
        ),
        is_asked_for(db.entries[k], q, include_benchmark),
        q.tag is Some ==> db.entries[k].tags.contains(q.tag->0@),
{
    let rows = entry_list::found(db.entries, q, include_benchmark, db.entries.len());
    let before = entry_model::by_time(q.order);
    let page = entry_list::page_of(db, q, include_benchmark);
    lemma_ordered_page(rows, before, q.offset as nat, q.limit as nat);
    let row = page[i];
    assert(rows.contains(row));
    vstd::seq_lib::to_multiset_contains(rows, row);
    lemma_listed(db.entries, q, include_benchmark, db.entries.len(), row);
    assert(db.entries.take(db.entries.len() as int) =~= db.entries);
    let c = db.entries.to_multiset().count(row);
    let t = entry_list::listings(row, q, include_benchmark);
    assert(c > 0 && t > 0) by (nonlinear_arith)
        requires
            c * t > 0,
            c >= 0,
            t >= 0,
    ;
    vstd::seq_lib::to_multiset_contains(db.entries, row);
    let k = choose|k: int| 0 <= k < db.entries.len() && db.entries[k] == row;
    if q.tag is Some {
        lemma_times(row.tags, q.tag->0@, row.tags.len());
        assert(row.tags.take(row.tags.len() as int) =~= row.tags);
        vstd::seq_lib::to_multiset_contains(row.tags, q.tag->0@);
    }
    law_blocks_of_an_entry(db.blocks, row.id);
    k
}

/// A page from the start that is not full lists every entry that was asked
/// for: once, or, where a tag was named, once for each time that it has it.
pub proof fn law_no_entry_is_left_out(
    db: ContentSpec,
    q: EntryListQuery,
    include_benchmark: bool,
    row: EntryRowSpec,
)
    requires
        q.offset == 0,
        items_of(db, q, include_benchmark).len() < q.limit,
    ensures
        entry_list::found(db.entries, q, include_benchmark, db.entries.len()).len() == items_of(
            db,
            q,
            include_benchmark,
        ).len(),
        entry_list::page_of(db, q, include_benchmark).to_multiset().count(row)
            == db.entries.to_multiset().count(row) * (if !is_asked_for(row, q, include_benchmark) {
            0
        } else if q.tag is None {
            1
        } else {
            row.tags.to_multiset().count(q.tag->0@)
        }),
{
    let rows = entry_list::found(db.entries, q, include_benchmark, db.entries.len());
    let before = entry_model::by_time(q.order);
    let page = entry_list::page_of(db, q, include_benchmark);
    lemma_ordered_page(rows, before, 0, q.limit as nat);
    ordering::law_in_order(rows, before);
    assert(page =~= ordering::in_order(rows, before));
    lemma_listed(db.entries, q, include_benchmark, db.entries.len(), row);
    assert(db.entries.take(db.entries.len() as int) =~= db.entries);
    if q.tag is Some {
        lemma_times(row.tags, q.tag->0@, row.tags.len());
        assert(row.tags.take(row.tags.len() as int) =~= row.tags);
    }
}

/// A purge finds the short-lived entries that were created before the given
/// time, or all of them where none is given, the oldest first.
pub proof fn law_purge_takes_the_short_lived(rows: Seq<EntryRowSpec>, before: Option<Timestamp>)
    ensures
        ({
            let found = entry_list::purge_rows(rows, before);
            let old = rows.filter(
                |row: EntryRowSpec|
                    visibility::is_transient(row.attrs) && (before is Some ==> !no_later(
                        before->0,
                        row.created_at,
                    )),
            );
            &&& found.len() == old.len()
            &&& forall|i: int|
                0 <= i < old.len() ==> found.contains(
                    CandidateSpec {
                        id: (#[trigger] old[i]).id,
                        title: old[i].title,
                        created_at: old[i].created_at,
                    },
                )
            &&& forall|i: int, j: int|
                #![trigger found[i], found[j]]
                0 <= i < j < found.len() ==> no_later(found[i].created_at, found[j].created_at)
        }),
{
    let keep = entry_list::purgeable(before);
    let wanted = |row: EntryRowSpec|
        visibility::is_transient(row.attrs) && (before is Some ==> !no_later(
            before->0,
            row.created_at,
        ));
    assert(keep =~= wanted);
    let old = rows.filter(wanted);
    let raw = old.map_values(|row: EntryRowSpec| entry_list::candidate(row));
    let order = entry_model::by_age();
    ordering::law_in_order(raw, order);
    ordering::lemma_in_order_members(raw, order);
    let found = entry_list::purge_rows(rows, before);
    assert forall|i: int| 0 <= i < old.len() implies found.contains(
        CandidateSpec {
            id: (#[trigger] old[i]).id,
            title: old[i].title,
            created_at: old[i].created_at,
        },
    ) by {
        assert(raw.contains(raw[i]));
    }
    assert forall|i: int, j: int|
        #![trigger found[i], found[j]]
        0 <= i < j < found.len() implies no_later(found[i].created_at, found[j].created_at) by {
        assert(!order(found[j], found[i]));
    }
}

/// The fixtures to purge are the benchmark entries, each once, the oldest
/// first and by their identifiers where they are equally old.
pub proof fn law_fixtures_to_purge(rows: Seq<EntryRowSpec>)
    ensures
        ({
            let found = entry_list::fixtures(rows);
            let marked = rows.filter(|row: EntryRowSpec| visibility::is_benchmark(row.attrs));
            &&& found.len() == marked.len()
            &&& forall|i: int|
                0 <= i < marked.len() ==> found.contains(
                    CandidateSpec {
                        id: (#[trigger] marked[i]).id,
                        title: marked[i].title,
                        created_at: marked[i].created_at,
                    },
                )
            &&& forall|i: int, j: int|
                #![trigger found[i], found[j]]
                0 <= i < j < found.len() ==> no_later(found[i].created_at, found[j].created_at) && (
                found[i].created_at == found[j].created_at ==> found[i].id <= found[j].id)
        }),
{
    let wanted = |row: EntryRowSpec| visibility::is_benchmark(row.attrs);
    assert(entry_list::is_fixture() =~= wanted);
    let marked = rows.filter(wanted);
    let raw = marked.map_values(|row: EntryRowSpec| entry_list::candidate(row));
    let order = entry_model::by_age_and_id();
    ordering::law_in_order(raw, order);
    ordering::lemma_in_order_members(raw, order);
    let found = entry_list::fixtures(rows);
    assert forall|i: int| 0 <= i < marked.len() implies found.contains(
        CandidateSpec {
            id: (#[trigger] marked[i]).id,
            title: marked[i].title,
            created_at: marked[i].created_at,
        },
    ) by {
        assert(raw.contains(raw[i]));
    }
    assert forall|i: int, j: int|
        #![trigger found[i], found[j]]
        0 <= i < j < found.len() implies no_later(found[i].created_at, found[j].created_at) && (
    found[i].created_at == found[j].created_at ==> found[i].id <= found[j].id) by {
        assert(!order(found[j], found[i]));
    }
}

proof fn lemma_purged(rows: Seq<CandidateSpec>, outcomes: Seq<Option<String>>, n: nat)
    requires
        n <= rows.len(),
        outcomes.len() == rows.len(),
    ensures
        entry_list::deleted(rows, outcomes, n).len() + entry_list::refused(rows, outcomes, n).len()
            == n,
        forall|i: int|
            0 <= i < n ==> if (#[trigger] outcomes[i]) is None {
                entry_list::deleted(rows, outcomes, n).contains(rows[i].id)
            } else {
                entry_list::refused(rows, outcomes, n).contains((rows[i].id, outcomes[i]->0@))
            },
    decreases n,
{
    if n > 0 {
        let m = (n - 1) as nat;
        lemma_purged(rows, outcomes, m);
        let gone = entry_list::deleted(rows, outcomes, m);
        let kept = entry_list::refused(rows, outcomes, m);
        let gone_after = entry_list::deleted(rows, outcomes, n);
        let kept_after = entry_list::refused(rows, outcomes, n);
        assert forall|i: int| 0 <= i < n implies if (#[trigger] outcomes[i]) is None {
            gone_after.contains(rows[i].id)
        } else {
            kept_after.contains((rows[i].id, outcomes[i]->0@))
        } by {
            if i == n - 1 {
                if outcomes[i] is None {
                    assert(gone_after[gone.len() as int] == rows[i].id);
                } else {
                    assert(kept_after[kept.len() as int] == (rows[i].id, outcomes[i]->0@));
                }
            } else if outcomes[i] is None {
                let k = choose|k: int| 0 <= k < gone.len() && gone[k] == rows[i].id;
                assert(gone_after[k] == rows[i].id);
            } else {
                let k = choose|k: int|
                    0 <= k < kept.len() && kept[k] == (rows[i].id, outcomes[i]->0@);
                assert(kept_after[k] == (rows[i].id, outcomes[i]->0@));
            }
        }
    }
}

/// A purge answers for every candidate: as deleted where nothing went wrong,
/// with the error that it met where something did. The preview shows the first
/// fifty.
pub proof fn law_purge_answers_for_every_candidate(
    rows: Seq<CandidateSpec>,
    outcomes: Seq<Option<String>>,
)
    requires
        outcomes.len() == rows.len(),
    ensures
        entry_list::deleted(rows, outcomes, rows.len()).len() + entry_list::refused(
            rows,
            outcomes,
            rows.len(),
        ).len() == rows.len(),
        forall|i: int|
            0 <= i < rows.len() ==> if (#[trigger] outcomes[i]) is None {
                entry_list::deleted(rows, outcomes, rows.len()).contains(rows[i].id)
            } else {
                entry_list::refused(rows, outcomes, rows.len()).contains(
                    (rows[i].id, outcomes[i]->0@),
                )
            },
        entry_list::preview(rows) == if rows.len() <= 50 {
            rows
        } else {
            rows.take(50)
        },
{
    lemma_purged(rows, outcomes, rows.len());
    assert(entry_list::preview(rows) =~= if rows.len() <= 50 {
        rows
    } else {
        rows.take(50)
    });
}

} // verus!
