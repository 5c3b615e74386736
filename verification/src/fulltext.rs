//! Full-text search: from a query to what is asked of the index, and from
//! matching blocks to entries.
use vstd::prelude::*;
use vstd::string::*;

use crate::block_model::Block;
use crate::content::{ContentDb, ContentSpec};
use crate::entries;
use crate::float_bits::F32Bits;
use crate::fts_query;
use crate::ids::{self, Id};
use crate::model::{Entry, EntryRow, EntrySpec};
use crate::ordering;
use crate::snippet;
use crate::tables::{self, HasId};
use crate::text;
use crate::visibility;

verus! {

/// Shorter queries have no trigram, and are looked for in the text itself.
pub const SHORTEST: usize = 3;

/// How many blocks a hit names at most.
pub const IDS_CAP: usize = 64;

/// Whether the trigram index can answer a query.
pub fn uses_index(query: &str) -> (r: bool)
    ensures
        r == (query@.len() >= SHORTEST),
        r == (query@.len() >= 3),
{
    text::chars_of(query).len() >= SHORTEST
}

/// A character of a LIKE pattern that stands for itself. Wildcards, and the
/// backslash that escapes them, are escaped.
pub open spec fn like_char(c: char) -> Seq<char> {
    if c == '\\' || c == '%' || c == '_' {
        seq!['\\', c]
    } else {
        seq![c]
    }
}

/// A text of which each character stands for itself.
pub open spec fn like_literal(s: Seq<char>) -> Seq<char>
    decreases s.len(),
{
    if s.len() == 0 {
        Seq::empty()
    } else {
        like_literal(s.drop_last()) + like_char(s.last())
    }
}

/// The pattern for texts that contain a query.
pub open spec fn like_pattern(s: Seq<char>) -> Seq<char> {
    seq!['%'] + like_literal(s) + seq!['%']
}

/// Make the pattern for texts that contain a query.
pub fn pattern_for(query: &str) -> (r: String)
    ensures
        r@ == like_pattern(query@),
{
    let chars = text::chars_of(query);
    let mut out = String::new();
    out.push('%');
    let mut i: usize = 0;
    proof {
        assert(out@ =~= seq!['%'] + like_literal(query@.take(0)));
    }
    while i < chars.len()
        invariant
            i <= chars.len(),
            chars@ == query@,
            out@ == seq!['%'] + like_literal(query@.take(i as int)),
        decreases chars.len() - i,
    {
        let c = chars[i];
        let ghost before = out@;
        if c == '\\' || c == '%' || c == '_' {
            out.push('\\');
        }
        out.push(c);
        proof {
            assert(query@.take(i + 1).drop_last() =~= query@.take(i as int));
            assert(out@ =~= before + like_char(c));
            assert(out@ =~= seq!['%'] + like_literal(query@.take(i + 1)));
        }
        i += 1;
    }
    proof {
        assert(query@.take(i as int) =~= query@);
    }
    out.push('%');
    proof {
        assert(out@ =~= like_pattern(query@));
    }
    out
}

/// What is asked of the database for a query.
#[derive(Debug, Clone)]
pub enum TextLookup {
    /// Nothing is asked: the query holds no term.
    Nothing,
    /// The trigram index is asked for these terms.
    Terms(String),
    /// The texts are looked through by this pattern.
    Pattern(String),
}

/// What is asked of the database for a query, as mathematics.
pub enum TextLookupSpec {
    Nothing,
    Terms(Seq<char>),
    Pattern(Seq<char>),
}

impl View for TextLookup {
    type V = TextLookupSpec;

    open spec fn view(&self) -> TextLookupSpec {
        match self {
            TextLookup::Nothing => TextLookupSpec::Nothing,
            TextLookup::Terms(s) => TextLookupSpec::Terms(s@),
            TextLookup::Pattern(s) => TextLookupSpec::Pattern(s@),
        }
    }
}

/// A query that the index can answer asks it for its terms as literals, and a
/// shorter one looks through the texts for those that contain it.
pub open spec fn lookup(query: Seq<char>) -> TextLookupSpec {
    let terms = fts_query::escaped(query);
    if query.len() < SHORTEST {
        TextLookupSpec::Pattern(like_pattern(query))
    } else if terms.len() == 0 {
        TextLookupSpec::Nothing
    } else {
        TextLookupSpec::Terms(terms)
    }
}

/// What is asked of the database for the blocks, or the turns, that match a
/// query.
pub fn lookup_for(query: &str) -> (r: TextLookup)
    ensures
        r@ == lookup(query@),
{
    if !uses_index(query) {
        return TextLookup::Pattern(pattern_for(query));
    }
    let terms = fts_query::escape(query);
    proof {
        reveal_strlit("");
        if terms@.len() == 0 {
            assert(terms@ =~= ""@);
        }
    }
    if text::same(terms.as_str(), "") {
        TextLookup::Nothing
    } else {
        TextLookup::Terms(terms)
    }
}

/// What a LIKE pattern with a backslash as escape character matches, apart
/// from case: `%` any text, `_` any character, and an escaped character itself.
pub open spec fn like(pattern: Seq<char>, s: Seq<char>) -> bool
    decreases pattern.len(),
{
    if pattern.len() == 0 {
        s.len() == 0
    } else if pattern[0] == '%' {
        exists|k: int| 0 <= k <= s.len() && like(pattern.skip(1), #[trigger] s.skip(k))
    } else if pattern[0] == '_' {
        s.len() > 0 && like(pattern.skip(1), s.skip(1))
    } else if pattern[0] == '\\' {
        pattern.len() > 1 && s.len() > 0 && s[0] == pattern[1] && like(pattern.skip(2), s.skip(1))
    } else {
        s.len() > 0 && s[0] == pattern[0] && like(pattern.skip(1), s.skip(1))
    }
}

proof fn lemma_literal_first(q: Seq<char>)
    requires
        q.len() > 0,
    ensures
        like_literal(q) == like_char(q[0]) + like_literal(q.skip(1)),
    decreases q.len(),
{
    if q.len() == 1 {
        assert(q.drop_last() =~= Seq::empty());
        assert(q.skip(1) =~= Seq::empty());
        assert(like_literal(q.drop_last()) =~= Seq::empty());
        assert(like_literal(q.skip(1)) =~= Seq::empty());
        assert(like_literal(q) =~= like_char(q[0]));
        assert(like_char(q[0]) + like_literal(q.skip(1)) =~= like_char(q[0]));
    } else {
        lemma_literal_first(q.drop_last());
        assert(q.drop_last().skip(1) =~= q.skip(1).drop_last());
        assert(like_literal(q.skip(1)) == like_literal(q.skip(1).drop_last()) + like_char(
            q.last(),
        ));
        assert(like_literal(q) =~= like_char(q[0]) + like_literal(q.skip(1)));
    }
}

proof fn lemma_like_literal(q: Seq<char>, rest: Seq<char>, s: Seq<char>)
    ensures
        like(like_literal(q) + rest, s) <==> s.len() >= q.len() && s.take(q.len() as int) == q
            && like(rest, s.skip(q.len() as int)),
    decreases q.len(),
{
    if q.len() == 0 {
        assert(like_literal(q) + rest =~= rest);
        assert(s.skip(0) =~= s);
        assert(s.take(0) =~= q);
    } else {
        lemma_literal_first(q);
        let c = q[0];
        let tail = q.skip(1);
        let p = like_literal(q) + rest;
        assert(p =~= like_char(c) + (like_literal(tail) + rest));
        if c == '\\' || c == '%' || c == '_' {
            assert(p[0] == '\\' && p[1] == c);
            assert(p.skip(2) =~= like_literal(tail) + rest);
        } else {
            assert(p[0] == c);
            assert(p.skip(1) =~= like_literal(tail) + rest);
        }
        if s.len() > 0 {
            lemma_like_literal(tail, rest, s.skip(1));
            if s.len() >= q.len() {
                assert(s.skip(1).skip(tail.len() as int) =~= s.skip(q.len() as int));
                if s[0] == c && s.skip(1).take(tail.len() as int) == tail {
                    assert(s.take(q.len() as int) =~= q) by {
                        assert forall|i: int| 0 <= i < q.len() implies s.take(q.len() as int)[i]
                            == q[i] by {
                            if i > 0 {
                                assert(s.skip(1).take(tail.len() as int)[i - 1] == tail[i - 1]);
                            }
                        }
                    }
                }
                if s.take(q.len() as int) == q {
                    assert(s[0] == s.take(q.len() as int)[0]);
                    assert(s.skip(1).take(tail.len() as int) =~= tail) by {
                        assert forall|i: int| 0 <= i < tail.len() implies s.skip(1).take(
                            tail.len() as int,
                        )[i] == tail[i] by {
                            assert(s.take(q.len() as int)[i + 1] == q[i + 1]);
                        }
                    }
                }
            }
        }
    }
}

proof fn lemma_like_any(s: Seq<char>)
    ensures
        like(seq!['%'], s),
{
    let p = seq!['%'];
    assert(p.skip(1) =~= Seq::empty());
    assert(s.skip(s.len() as int) =~= Seq::empty());
    assert(like(p.skip(1), s.skip(s.len() as int)));
}

/// Apart from case, the pattern for a query matches just the texts in which the
/// query occurs: nothing in a query acts as a wildcard.
pub proof fn law_pattern_is_literal(query: Seq<char>, s: Seq<char>)
    ensures
        like(like_pattern(query), s) <==> text::occurs(s, query),
{
    let p = like_pattern(query);
    let rest = like_literal(query) + seq!['%'];
    assert(p.skip(1) =~= rest);
    assert(p[0] == '%');
    assert forall|k: int| 0 <= k <= s.len() implies (like(p.skip(1), #[trigger] s.skip(k))
        <==> text::occurs_at(s, query, k)) by {
        lemma_like_literal(query, seq!['%'], s.skip(k));
        if s.skip(k).len() >= query.len() {
            lemma_like_any(s.skip(k).skip(query.len() as int));
            assert(s.skip(k).take(query.len() as int) =~= s.subrange(k, k + query.len()));
        }
    }
    if like(p, s) {
        let k = choose|k: int| 0 <= k <= s.len() && like(p.skip(1), #[trigger] s.skip(k));
        assert(text::occurs_at(s, query, k));
    }
    if text::occurs(s, query) {
        let k = choose|k: int| text::occurs_at(s, query, k);
        assert(like(p.skip(1), s.skip(k)));
    }
}

/// A block that matches, as the index gives it. Identifiers that cannot be
/// read are none.
#[derive(Debug, Clone)]
pub struct FtsRow {
    pub entry_id: Option<Id>,
    pub block_id: Option<Id>,
    pub block_type: String,
    pub text: String,
    pub score: F32Bits,
}

/// Read a matching block from the index's columns.
pub fn read_row(
    entry_id: &str,
    block_id: &str,
    block_type: String,
    text: String,
    score: F32Bits,
) -> (r: FtsRow)
    ensures
        r.entry_id == ids::id_of_text(entry_id@),
        r.block_id == ids::id_of_text(block_id@),
        r.block_type == block_type,
        r.text == text,
        r.score == score,
{
    FtsRow {
        entry_id: ids::parse_id(entry_id),
        block_id: ids::parse_id(block_id),
        block_type,
        text,
        score,
    }
}

/// Which matches are wanted.
#[derive(Debug, Clone)]
pub struct SearchFilter {
    pub block_type: Option<String>,
    pub tag: Option<String>,
    pub include_benchmark: bool,
}

/// The entry may be seen and has the tag, and the block's type is the one that
/// is asked for.
pub open spec fn entry_wanted(
    db: ContentSpec,
    entry: Id,
    block_type: Seq<char>,
    filter: SearchFilter,
) -> bool {
    &&& entries::visible(db, entry, filter.include_benchmark)
    &&& filter.block_type is None || filter.block_type->0@ == block_type
    &&& filter.tag is None || db.entries[tables::row_of::<EntryRow>(
        db.entries,
        entry,
    )->0].tags.contains(filter.tag->0@)
}

/// The match is of an entry that can be read and is wanted.
pub open spec fn wanted(db: ContentSpec, row: FtsRow, filter: SearchFilter) -> bool {
    row.entry_id is Some && entry_wanted(db, row.entry_id->0, row.block_type@, filter)
}

/// What is gathered of an entry's matches.
#[derive(Debug, Clone)]
pub struct DedupedHit {
    pub entry_id: Id,
    pub score: F32Bits,
    pub match_count: u32,
    pub matched_block_ids: Vec<Id>,
    pub best_block_id: Id,
    pub best_block_type: String,
    pub best_text: String,
}

/// A hit as mathematics.
#[verifier::ext_equal]
pub struct HitSpec {
    pub entry_id: Id,
    pub score: F32Bits,
    pub match_count: u32,
    pub matched_block_ids: Seq<Id>,
    pub best_block_id: Id,
    pub best_block_type: Seq<char>,
    pub best_text: Seq<char>,
}

impl View for DedupedHit {
    type V = HitSpec;

    open spec fn view(&self) -> HitSpec {
        HitSpec {
            entry_id: self.entry_id,
            score: self.score,
            match_count: self.match_count,
            matched_block_ids: self.matched_block_ids@,
            best_block_id: self.best_block_id,
            best_block_type: self.best_block_type@,
            best_text: self.best_text@,
        }
    }
}

impl HasId for DedupedHit {
    open spec fn id_of(row: HitSpec) -> Id {
        row.entry_id
    }

    fn row_id(&self) -> (r: Id) {
        self.entry_id
    }
}

/// A hit with one more match.
pub open spec fn with_match(hit: HitSpec, block: Id) -> HitSpec {
    HitSpec {
        match_count: (hit.match_count + 1) as u32,
        matched_block_ids: if hit.matched_block_ids.len() < IDS_CAP {
            hit.matched_block_ids.push(block)
        } else {
            hit.matched_block_ids
        },
        ..hit
    }
}

/// The hit of an entry's first match, which is its best.
pub open spec fn first_match(row: FtsRow) -> HitSpec {
    HitSpec {
        entry_id: row.entry_id->0,
        score: row.score,
        match_count: 1,
        matched_block_ids: seq![row.block_id->0],
        best_block_id: row.block_id->0,
        best_block_type: row.block_type@,
        best_text: row.text@,
    }
}

/// The hits of the first `n` matches, each entry once, in the order of their
/// first matches. A match whose identifiers cannot be read is passed over.
pub open spec fn gathered(
    db: ContentSpec,
    rows: Seq<FtsRow>,
    filter: SearchFilter,
    n: nat,
) -> Seq<HitSpec>
    decreases n,
{
    if n == 0 {
        Seq::empty()
    } else {
        let before = gathered(db, rows, filter, (n - 1) as nat);
        let row = rows[n - 1];
        if !wanted(db, row, filter) || row.block_id is None {
            before
        } else {
            match tables::row_of::<DedupedHit>(before, row.entry_id->0) {
                Some(i) => before.update(i, with_match(before[i], row.block_id->0)),
                None => before.push(first_match(row)),
            }
        }
    }
}

/// The hits of all matches, no more than `limit` of them.
pub open spec fn hits_of(
    db: ContentSpec,
    rows: Seq<FtsRow>,
    filter: SearchFilter,
    limit: u32,
) -> Seq<HitSpec> {
    tables::page(gathered(db, rows, filter, rows.len()), 0, limit as nat)
}

/// Whether an entry is wanted, by a block of the given type.
pub fn is_wanted_entry(db: &ContentDb, entry: Id, block_type: &str, filter: &SearchFilter) -> (r:
    bool)
    ensures
        r == entry_wanted(db@, entry, block_type@, *filter),
{
    let at = match tables::find_row(&db.entries, entry) {
        Some(i) => i,
        None => {
            return false;
        },
    };
    proof {
        assert(db@.entries[at as int] == db.entries@[at as int]@);
    }
    if !filter.include_benchmark && visibility::benchmark(&db.entries[at].attrs) {
        return false;
    }
    let typed = match &filter.block_type {
        Some(t) => text::same(t.as_str(), block_type),
        None => true,
    };
    let tagged = match &filter.tag {
        Some(t) => tables::is_tagged(&db.entries[at].tags, t.as_str()),
        None => true,
    };
    typed && tagged
}

fn is_wanted(db: &ContentDb, row: &FtsRow, filter: &SearchFilter) -> (r: bool)
    ensures
        r == wanted(db@, *row, *filter),
{
    match row.entry_id {
        Some(id) => is_wanted_entry(db, id, row.block_type.as_str(), filter),
        None => false,
    }
}

proof fn lemma_counts(db: ContentSpec, rows: Seq<FtsRow>, filter: SearchFilter, n: nat)
    requires
        n <= rows.len(),
        n <= u32::MAX,
    ensures
        forall|i: int|
            0 <= i < gathered(db, rows, filter, n).len() ==> (#[trigger] gathered(
                db,
                rows,
                filter,
                n,
            )[i]).match_count <= n,
        gathered(db, rows, filter, n).len() <= n,
    decreases n,
{
    if n > 0 {
        lemma_counts(db, rows, filter, (n - 1) as nat);
        let before = gathered(db, rows, filter, (n - 1) as nat);
        let row = rows[n - 1];
        if wanted(db, row, filter) && row.block_id is Some {
            tables::lemma_row_at::<DedupedHit>(before, row.entry_id->0, before.len());
        }
    }
}

/// Gather matches by entry: how many there are, which blocks, and the best one.
/// Every match counts, however many entries are asked for.
pub fn dedupe_hits(db: &ContentDb, rows: &Vec<FtsRow>, filter: &SearchFilter, limit: u32) -> (r: Vec<
    DedupedHit,
>)
    requires
        rows.len() <= u32::MAX,
    ensures
        ordering::views(r@) == hits_of(db@, rows@, *filter, limit),
{
    let mut hits: Vec<DedupedHit> = Vec::new();
    let mut n: usize = 0;
    proof {
        assert(ordering::views(hits@) =~= Seq::empty());
    }
    while n < rows.len()
        invariant
            n <= rows.len(),
            rows.len() <= u32::MAX,
            ordering::views(hits@) == gathered(db@, rows@, *filter, n as nat),
        decreases rows.len() - n,
    {
        let row = &rows[n];
        proof {
            lemma_counts(db@, rows@, *filter, n as nat);
        }
        if is_wanted(db, row, filter) {
            if let (Some(entry), Some(block)) = (row.entry_id, row.block_id) {
                let ghost before = hits@;
                match tables::find_row(&hits, entry) {
                    Some(i) => {
                        proof {
                            assert(ordering::views(before)[i as int] == before[i as int]@);
                        }
                        let old = &hits[i];
                        let mut ids: Vec<Id> = Vec::new();
                        let mut k: usize = 0;
                        while k < old.matched_block_ids.len()
                            invariant
                                k <= old.matched_block_ids.len(),
                                ids@ == old.matched_block_ids@.take(k as int),
                            decreases old.matched_block_ids.len() - k,
                        {
                            ids.push(old.matched_block_ids[k]);
                            proof {
                                assert(old.matched_block_ids@.take(k + 1)
                                    =~= old.matched_block_ids@.take(k as int).push(
                                    old.matched_block_ids@[k as int],
                                ));
                            }
                            k += 1;
                        }
                        proof {
                            assert(old.matched_block_ids@.take(k as int)
                                =~= old.matched_block_ids@);
                        }
                        if ids.len() < IDS_CAP {
                            ids.push(block);
                        }
                        let hit = DedupedHit {
                            entry_id: old.entry_id,
                            score: old.score,
                            match_count: old.match_count + 1,
                            matched_block_ids: ids,
                            best_block_id: old.best_block_id,
                            best_block_type: old.best_block_type.clone(),
                            best_text: old.best_text.clone(),
                        };
                        let ghost view = hit@;
                        hits.set(i, hit);
                        proof {
                            assert(view == with_match(before[i as int]@, block));
                            assert(ordering::views(hits@) =~= ordering::views(before).update(
                                i as int,
                                view,
                            ));
                        }
                    },
                    None => {
                        let mut ids: Vec<Id> = Vec::new();
                        ids.push(block);
                        proof {
                            assert(ids@ =~= seq![block]);
                        }
                        let hit = DedupedHit {
                            entry_id: entry,
                            score: row.score,
                            match_count: 1,
                            matched_block_ids: ids,
                            best_block_id: block,
                            best_block_type: row.block_type.clone(),
                            best_text: row.text.clone(),
                        };
                        let ghost view = hit@;
                        hits.push(hit);
                        proof {
                            assert(view == first_match(*row));
                            assert(ordering::views(hits@) =~= ordering::views(before).push(view));
                        }
                    },
                }
            }
        }
        n += 1;
    }
    tables::take_page(hits, 0, limit)
}

/// Where an entry matches best.
#[derive(Debug, Clone)]
pub struct BestMatch {
    pub block_id: Id,
    pub block_type: String,
    pub snippet: String,
}

/// An entry that a full-text search found.
#[derive(Debug, Clone)]
pub struct FulltextSearchResult {
    pub entry: Entry,
    pub score: F32Bits,
    pub match_count: u32,
    pub matched_block_ids: Vec<Id>,
    pub best_match: BestMatch,
}

/// A result as mathematics.
#[verifier::ext_equal]
pub struct ResultSpec {
    pub entry: EntrySpec,
    pub score: F32Bits,
    pub match_count: u32,
    pub matched_block_ids: Seq<Id>,
    pub block_id: Id,
    pub block_type: Seq<char>,
    pub snippet: Seq<char>,
}

impl View for FulltextSearchResult {
    type V = ResultSpec;

    open spec fn view(&self) -> ResultSpec {
        ResultSpec {
            entry: self.entry@,
            score: self.score,
            match_count: self.match_count,
            matched_block_ids: self.matched_block_ids@,
            block_id: self.best_match.block_id,
            block_type: self.best_match.block_type@,
            snippet: self.best_match.snippet@,
        }
    }
}

/// What is answered for a hit: the entry without its blocks, and where it
/// matches best.
pub open spec fn result_of(db: ContentSpec, hit: HitSpec, query: Seq<char>) -> ResultSpec {
    ResultSpec {
        entry: db.entries[tables::row_of::<EntryRow>(
            db.entries,
            hit.entry_id,
        )->0].with_blocks(Seq::empty()),
        score: hit.score,
        match_count: hit.match_count,
        matched_block_ids: hit.matched_block_ids,
        block_id: hit.best_block_id,
        block_type: hit.best_block_type,
        snippet: snippet::snippet_of(hit.best_text, query),
    }
}

/// The answers for the first `n` hits. An entry that is not to be seen is
/// passed over.
pub open spec fn answered(
    db: ContentSpec,
    hits: Seq<HitSpec>,
    query: Seq<char>,
    include_benchmark: bool,
    n: nat,
) -> Seq<ResultSpec>
    decreases n,
{
    if n == 0 {
        Seq::empty()
    } else {
        let before = answered(db, hits, query, include_benchmark, (n - 1) as nat);
        if entries::visible(db, hits[n - 1].entry_id, include_benchmark) {
            before.push(result_of(db, hits[n - 1], query))
        } else {
            before
        }
    }
}

/// Answer hits: entries in the order of the hits, each with a snippet of its
/// best match.
pub fn build_results(
    db: &ContentDb,
    hits: Vec<DedupedHit>,
    query: &str,
    include_benchmark: bool,
) -> (r: Vec<FulltextSearchResult>)
    ensures
        ordering::views(r@) == answered(
            db@,
            ordering::views(hits@),
            query@,
            include_benchmark,
            hits@.len(),
        ),
{
    let ghost all = hits@;
    let ghost held = ordering::views(all);
    let mut out: Vec<FulltextSearchResult> = Vec::new();
    proof {
        assert(ordering::views(out@) =~= Seq::empty());
    }
    for hit in it: hits
        invariant
            it.seq() == all,
            held == ordering::views(all),
            ordering::views(out@) == answered(
                db@,
                held,
                query@,
                include_benchmark,
                it.index() as nat,
            ),
    {
        proof {
            assert(held[it.index() as int] == hit@);
        }
        if let Some(at) = tables::find_row(&db.entries, hit.entry_id) {
            proof {
                assert(db@.entries[at as int] == db.entries@[at as int]@);
            }
            if include_benchmark || !visibility::benchmark(&db.entries[at].attrs) {
                let ghost old_out = out@;
                let ghost hit_view = hit@;
                let entry = db.entries[at].to_entry(Vec::new());
                let snippet = snippet::extract_snippet(hit.best_text.as_str(), query);
                let DedupedHit {
                    entry_id: _,
                    score,
                    match_count,
                    matched_block_ids,
                    best_block_id,
                    best_block_type,
                    best_text: _,
                } = hit;
                let result = FulltextSearchResult {
                    entry,
                    score,
                    match_count,
                    matched_block_ids,
                    best_match: BestMatch {
                        block_id: best_block_id,
                        block_type: best_block_type,
                        snippet,
                    },
                };
                let ghost view = result@;
                out.push(result);
                proof {
                    assert(ordering::views(Seq::<Block>::empty()) =~= Seq::empty());
                    assert(view == result_of(db@, hit_view, query@));
                    assert(ordering::views(out@) =~= ordering::views(old_out).push(view));
                }
            }
        }
    }
    out
}

/// Turn matches into entries: gathered, limited, and answered.
pub fn fulltext_search(
    db: &ContentDb,
    rows: &Vec<FtsRow>,
    filter: &SearchFilter,
    query: &str,
    limit: u32,
) -> (r: Vec<FulltextSearchResult>)
    requires
        rows.len() <= u32::MAX,
    ensures
        ({
            let hits = tables::page(
                gathered(db@, rows@, *filter, rows@.len()),
                0,
                limit as nat,
            );
            ordering::views(r@) == answered(
                db@,
                hits,
                query@,
                filter.include_benchmark,
                hits.len(),
            )
        }),
{
    let hits = dedupe_hits(db, rows, filter, limit);
    proof {
        assert(ordering::views(hits@).len() == hits@.len());
    }
    build_results(db, hits, query, filter.include_benchmark)
}

/// Hits: no entry twice; each names as many blocks as it has matches, up to the
/// cap.
pub proof fn law_hits_are_gathered_by_entry(
    db: ContentSpec,
    rows: Seq<FtsRow>,
    filter: SearchFilter,
    n: nat,
)
    requires
        n <= rows.len(),
        rows.len() <= u32::MAX,
    ensures
        ({
            let hits = gathered(db, rows, filter, n);
            &&& tables::distinct::<DedupedHit>(hits)
            &&& forall|i: int|
                0 <= i < hits.len() ==> (#[trigger] hits[i]).match_count >= 1
                    && hits[i].matched_block_ids.len() == if hits[i].match_count <= IDS_CAP {
                    hits[i].match_count as nat
                } else {
                    IDS_CAP as nat
                }
        }),
    decreases n,
{
    if n > 0 {
        let p = (n - 1) as nat;
        law_hits_are_gathered_by_entry(db, rows, filter, p);
        lemma_counts(db, rows, filter, p);
        let before = gathered(db, rows, filter, p);
        let row = rows[n - 1];
        if wanted(db, row, filter) && row.block_id is Some {
            tables::lemma_row_at::<DedupedHit>(before, row.entry_id->0, before.len());
        }
    }
}

/// A limit only cuts the list: with a smaller one, the first hits stay as they
/// are, with their counts and blocks, and the others are left out.
pub proof fn law_limit_only_cuts_the_list(
    db: ContentSpec,
    rows: Seq<FtsRow>,
    filter: SearchFilter,
    fewer: u32,
    more: u32,
)
    requires
        fewer <= more,
    ensures
        ({
            let all = hits_of(db, rows, filter, more);
            hits_of(db, rows, filter, fewer) == all.take(
                if fewer <= all.len() {
                    fewer as int
                } else {
                    all.len() as int
                },
            )
        }),
{
    let all = hits_of(db, rows, filter, more);
    let kept = if fewer <= all.len() {
        fewer as int
    } else {
        all.len() as int
    };
    assert(hits_of(db, rows, filter, fewer) =~= all.take(kept));
}

} // verus!
