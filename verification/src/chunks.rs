//! Chunks of blocks, and the dimension of the tables that hold their vectors.
use vstd::prelude::*;
use vstd::string::*;

use crate::block_model::{Block, BlockRow};
use crate::blocks;
use crate::chunk_model::{
    self, Chunk, ChunkListResult, ChunkRow, ChunkSearchResult, DimReconciliation, FoundSpec,
};
use crate::content::{self, ContentDb, ContentSpec};
use crate::error::{CoreError, CoreFault};
use crate::escaping;
use crate::float_bits::F32Bits;
use crate::fulltext::{self, SearchFilter};
use crate::ids::Id;
use crate::ordering;
use crate::tables::{self, Copied};
use crate::text;

verus! {

/// The chunk exists, and its block's entry is not hidden.
pub open spec fn chunk_visible(db: ContentSpec, id: Id, include_benchmark: bool) -> bool {
    tables::row_of::<Chunk>(db.chunks, id) matches Some(i) && !block_hidden(
        db,
        db.chunks[i].block_id,
        include_benchmark,
    )
}

/// The block is one of a hidden entry.
pub open spec fn block_hidden(db: ContentSpec, block: Id, include_benchmark: bool) -> bool {
    tables::row_of::<Block>(db.blocks, block) matches Some(b) && blocks::hidden(
        db,
        db.blocks[b].entry_id,
        include_benchmark,
    )
}

fn is_block_hidden(db: &ContentDb, block: Id, include_benchmark: bool) -> (r: bool)
    ensures
        r == block_hidden(db@, block, include_benchmark),
{
    match tables::find_row(&db.blocks, block) {
        Some(b) => {
            proof {
                assert(db@.blocks[b as int] == db.blocks@[b as int]@);
            }
            blocks::is_hidden(db, db.blocks[b].entry_id, include_benchmark)
        },
        None => false,
    }
}

/// Get a chunk. One of a benchmark fixture is found only where fixtures are
/// shown.
pub fn get_chunk(db: &ContentDb, id: Id, include_benchmark: bool) -> (r: Result<Chunk, CoreError>)
    ensures
        match r {
            Ok(c) => chunk_visible(db@, id, include_benchmark) && c@
                == db@.chunks[tables::row_of::<Chunk>(db@.chunks, id)->0],
            Err(e) => !chunk_visible(db@, id, include_benchmark) && e@ == CoreFault::NotFound(id),
        },
{
    match tables::find_row(&db.chunks, id) {
        Some(i) => {
            proof {
                assert(db@.chunks[i as int] == db.chunks@[i as int]@);
            }
            if is_block_hidden(db, db.chunks[i].block_id, include_benchmark) {
                return Err(CoreError::NotFound(id));
            }
            Ok(db.chunks[i].copy())
        },
        None => Err(CoreError::NotFound(id)),
    }
}

/// The chunks of a block, in order.
pub open spec fn chunks_of_block(chunks: Seq<ChunkRow>, block: Id) -> Seq<ChunkRow> {
    ordering::in_order(content::owned::<Chunk>(chunks, block), chunk_model::by_ordinal())
}

/// List the chunks of a block. Those of a benchmark fixture are listed only
/// where fixtures are shown.
pub fn list_chunks(db: &ContentDb, block: Id, include_benchmark: bool) -> (r: ChunkListResult)
    ensures
        ordering::views(r.items@) == if block_hidden(db@, block, include_benchmark) {
            Seq::empty()
        } else {
            chunks_of_block(db@.chunks, block)
        },
        r.total == r.items@.len(),
{
    if is_block_hidden(db, block, include_benchmark) {
        let items: Vec<Chunk> = Vec::new();
        proof {
            assert(ordering::views(items@) =~= Seq::empty());
        }
        return ChunkListResult { items, total: 0 };
    }
    let items = ordering::put_in_order(content::copy_owned(&db.chunks, block), &());
    let total = items.len() as u64;
    ChunkListResult { items, total }
}

/// The chunk is one of a block of an entry that is wanted.
pub open spec fn chunk_wanted(db: ContentSpec, id: Id, filter: SearchFilter) -> bool {
    &&& tables::row_of::<Chunk>(db.chunks, id) is Some
    &&& tables::row_of::<Block>(db.blocks, chunk_row(db, id).block_id) is Some
    &&& fulltext::entry_wanted(db, block_row(db, id).entry_id, block_row(db, id).type_, filter)
}

/// The chunk of that identifier.
pub open spec fn chunk_row(db: ContentSpec, id: Id) -> ChunkRow {
    db.chunks[tables::row_of::<Chunk>(db.chunks, id)->0]
}

/// The block of the chunk of that identifier.
pub open spec fn block_row(db: ContentSpec, id: Id) -> BlockRow {
    db.blocks[tables::row_of::<Block>(db.blocks, chunk_row(db, id).block_id)->0]
}

/// Of the first `n` of the nearest chunks those that are wanted, in their order.
pub open spec fn nearest_wanted(
    db: ContentSpec,
    nearest: Seq<(Id, F32Bits)>,
    filter: SearchFilter,
    n: nat,
) -> Seq<FoundSpec>
    decreases n,
{
    if n == 0 {
        Seq::empty()
    } else {
        let before = nearest_wanted(db, nearest, filter, (n - 1) as nat);
        let (id, score) = nearest[n - 1];
        if chunk_wanted(db, id, filter) {
            before.push(
                FoundSpec { chunk: chunk_row(db, id), entry_id: block_row(db, id).entry_id, score },
            )
        } else {
            before
        }
    }
}

/// Give the chunks that a search by vectors found nearest, those that are
/// wanted, nearest first.
pub fn semantic_search(
    db: &ContentDb,
    nearest: &Vec<(Id, F32Bits)>,
    filter: &SearchFilter,
) -> (r: Vec<ChunkSearchResult>)
    ensures
        ordering::views(r@) == nearest_wanted(db@, nearest@, *filter, nearest@.len()),
{
    let mut out: Vec<ChunkSearchResult> = Vec::new();
    let mut n: usize = 0;
    proof {
        assert(ordering::views(out@) =~= Seq::empty());
    }
    while n < nearest.len()
        invariant
            n <= nearest.len(),
            ordering::views(out@) == nearest_wanted(db@, nearest@, *filter, n as nat),
        decreases nearest.len() - n,
    {
        let (id, score) = nearest[n];
        if let Some(c) = tables::find_row(&db.chunks, id) {
            proof {
                assert(db@.chunks[c as int] == db.chunks@[c as int]@);
            }
            if let Some(b) = tables::find_row(&db.blocks, db.chunks[c].block_id) {
                proof {
                    assert(db@.blocks[b as int] == db.blocks@[b as int]@);
                }
                let block = &db.blocks[b];
                if fulltext::is_wanted_entry(db, block.entry_id, block.type_.as_str(), filter) {
                    let ghost before = out@;
                    let hit = ChunkSearchResult {
                        chunk: db.chunks[c].copy(),
                        entry_id: block.entry_id,
                        score,
                    };
                    let ghost view = hit@;
                    out.push(hit);
                    proof {
                        assert(ordering::views(out@) =~= ordering::views(before).push(view));
                    }
                }
            }
        }
        n += 1;
    }
    out
}

/// The digit is one of 0 to 9.
pub open spec fn is_digit(c: char) -> bool {
    '0' <= c <= '9'
}

/// The number that digits write.
pub open spec fn number(s: Seq<char>) -> nat
    decreases s.len(),
{
    if s.len() == 0 {
        0
    } else {
        number(s.drop_last()) * 10 + (s.last() as nat - '0' as nat) as nat
    }
}

/// There is nothing but digits.
pub open spec fn all_digits(s: Seq<char>) -> bool {
    forall|i: int| 0 <= i < s.len() ==> is_digit(#[trigger] s[i])
}

/// The number that digits write, where there are any, and nothing else.
pub open spec fn unsigned(s: Seq<char>) -> Option<nat> {
    if s.len() > 0 && all_digits(s) {
        Some(number(s))
    } else {
        None
    }
}

/// The number that a text writes in digits, perhaps after a plus sign.
pub open spec fn number_of(s: Seq<char>) -> Option<nat> {
    if s.len() > 0 && s[0] == '+' {
        unsigned(s.skip(1))
    } else {
        unsigned(s)
    }
}

/// The dimension that a table's declaration gives: the number between the first
/// `FLOAT[` and the bracket that follows it.
pub open spec fn declared_dim(sql: Seq<char>) -> Option<nat> {
    if !text::occurs(sql, "FLOAT["@) {
        None
    } else {
        let rest = sql.skip(text::first_index(sql, "FLOAT["@) + 6);
        if !text::occurs(rest, "]"@) {
            None
        } else {
            number_of(rest.take(text::first_index(rest, "]"@)))
        }
    }
}

proof fn lemma_number_grows(s: Seq<char>, n: int)
    requires
        0 <= n <= s.len(),
        all_digits(s),
    ensures
        number(s.take(n)) <= number(s),
    decreases s.len() - n,
{
    if n < s.len() {
        assert(s.take(n + 1).drop_last() =~= s.take(n));
        lemma_number_grows(s, n + 1);
    } else {
        assert(s.take(n) =~= s);
    }
}

/// Read a number in digits, perhaps after a plus sign. Gives none for another
/// text and for a number that does not fit.
fn read_number(chars: &Vec<char>, from: usize, to: usize) -> (r: Option<usize>)
    requires
        from <= to <= chars.len(),
    ensures
        match r {
            Some(n) => number_of(chars@.subrange(from as int, to as int)) == Some(n as nat),
            None => number_of(chars@.subrange(from as int, to as int)) matches Some(n) ==> n
                > usize::MAX,
        },
{
    let ghost s = chars@.subrange(from as int, to as int);
    let start = if from < to && chars[from] == '+' {
        from + 1
    } else {
        from
    };
    let ghost digits = chars@.subrange(start as int, to as int);
    proof {
        if from < to && chars@[from as int] == '+' {
            assert(s[0] == '+');
            assert(s.skip(1) =~= digits);
        } else {
            if s.len() > 0 {
                assert(s[0] == chars@[from as int]);
            }
            assert(s =~= digits);
        }
    }
    if start == to {
        return None;
    }
    let mut n: usize = 0;
    let mut i: usize = start;
    proof {
        assert(digits.take(0) =~= Seq::empty());
    }
    while i < to
        invariant
            from <= start <= i <= to <= chars.len(),
            start < to,
            s == chars@.subrange(from as int, to as int),
            digits == chars@.subrange(start as int, to as int),
            number_of(s) == unsigned(digits),
            forall|k: int| 0 <= k < i - start ==> is_digit(#[trigger] digits[k]),
            n == number(digits.take(i - start)),
        decreases to - i,
    {
        let c = chars[i];
        proof {
            assert(digits[i - start] == c);
        }
        if !('0' <= c && c <= '9') {
            return None;
        }
        let d: usize = (c as u32 - '0' as u32) as usize;
        proof {
            assert(digits.take(i - start + 1).drop_last() =~= digits.take(i - start));
            assert(number(digits.take(i - start + 1)) == n * 10 + d);
        }
        if n > usize::MAX / 10 || n * 10 > usize::MAX - d {
            proof {
                if all_digits(digits) {
                    lemma_number_grows(digits, i - start + 1);
                }
            }
            return None;
        }
        n = n * 10 + d;
        i += 1;
    }
    proof {
        assert(digits.take(to - start) =~= digits);
    }
    Some(n)
}

/// The dimension that a table's declaration gives, where it gives one that
/// fits.
pub fn parse_vec_dim(sql: &str) -> (r: Option<usize>)
    ensures
        match r {
            Some(n) => declared_dim(sql@) == Some(n as nat),
            None => declared_dim(sql@) matches Some(n) ==> n > usize::MAX,
        },
{
    proof {
        reveal_strlit("FLOAT[");
        reveal_strlit("]");
    }
    let chars = text::chars_of(sql);
    let marker = text::chars_of("FLOAT[");
    let bracket = text::chars_of("]");
    proof {
        assert(chars@.skip(0) =~= sql@);
    }
    let at = match text::find_from(&chars, &marker, 0) {
        Some(i) => i,
        None => {
            return None;
        },
    };
    proof {
        text::lemma_first_unique(sql@, "FLOAT["@, at as int);
    }
    let start = at + 6;
    let end = match text::find_from(&chars, &bracket, start) {
        Some(i) => i,
        None => {
            return None;
        },
    };
    proof {
        let rest = sql@.skip(start as int);
        text::lemma_first_unique(rest, "]"@, end - start);
        assert(rest.take(end - start) =~= chars@.subrange(start as int, end as int));
    }
    read_number(&chars, start, end)
}

/// What is said of a declaration whose dimension cannot be read.
pub open spec fn dim_fault(table: Seq<char>, sql: Seq<char>) -> CoreFault {
    CoreFault::Storage(
        "Invalid parameter name: cannot parse dim from "@ + table + " SQL: "@ + sql,
    )
}

/// What is to become of a vector table: it is created where there is none, kept
/// where its dimension is the one wanted, and created anew otherwise.
pub fn reconcile_dim(declared: &Option<String>, table: &str, dim: usize) -> (r: Result<
    DimReconciliation,
    CoreError,
>)
    ensures
        match declared {
            None => r == Ok::<DimReconciliation, CoreError>(DimReconciliation::Created { dim }),
            Some(sql) => match declared_dim(sql@) {
                Some(n) => if n > usize::MAX {
                    r is Err && r->Err_0@ == dim_fault(table@, sql@)
                } else if n == dim {
                    r == Ok::<DimReconciliation, CoreError>(DimReconciliation::Consistent { dim })
                } else {
                    r == Ok::<DimReconciliation, CoreError>(
                        DimReconciliation::Recreated { from: n as usize, to: dim },
                    )
                },
                None => r is Err && r->Err_0@ == dim_fault(table@, sql@),
            },
        },
{
    match declared {
        None => Ok(DimReconciliation::Created { dim }),
        Some(sql) => match parse_vec_dim(sql.as_str()) {
            None => {
                let mut m = text::text3(
                    "Invalid parameter name: cannot parse dim from ",
                    table,
                    " SQL: ",
                );
                m.append(sql.as_str());
                Err(CoreError::Storage(m))
            },
            Some(actual) => if actual == dim {
                Ok(DimReconciliation::Consistent { dim })
            } else {
                Ok(DimReconciliation::Recreated { from: actual, to: dim })
            },
        },
    }
}

/// Check the dimension of the table of chunk vectors.
pub fn ensure_vec_chunk_embeddings(declared: &Option<String>, dim: usize) -> (r: Result<
    DimReconciliation,
    CoreError,
>)
    ensures
        match declared {
            None => r == Ok::<DimReconciliation, CoreError>(DimReconciliation::Created { dim }),
            Some(sql) => match declared_dim(sql@) {
                Some(n) => if n > usize::MAX {
                    r is Err && r->Err_0@ == dim_fault("vec_chunk_embeddings"@, sql@)
                } else if n == dim {
                    r == Ok::<DimReconciliation, CoreError>(DimReconciliation::Consistent { dim })
                } else {
                    r == Ok::<DimReconciliation, CoreError>(
                        DimReconciliation::Recreated { from: n as usize, to: dim },
                    )
                },
                None => r is Err && r->Err_0@ == dim_fault("vec_chunk_embeddings"@, sql@),
            },
        },
{
    reconcile_dim(declared, "vec_chunk_embeddings", dim)
}

/// Check the dimension of the table of example vectors. It must not be 0.
pub fn ensure_vec_query_affinities(declared: &Option<String>, dim: usize) -> (r: Result<
    DimReconciliation,
    CoreError,
>)
    ensures
        if dim == 0 {
            r is Err && r->Err_0@ == CoreFault::Validation(
                "affinity embedding dimension must be non-zero"@,
            )
        } else {
            match declared {
                None => r == Ok::<DimReconciliation, CoreError>(
                    DimReconciliation::Created { dim },
                ),
                Some(sql) => match declared_dim(sql@) {
                    Some(n) => if n > usize::MAX {
                        r is Err && r->Err_0@ == dim_fault("vec_query_affinities"@, sql@)
                    } else if n == dim {
                        r == Ok::<DimReconciliation, CoreError>(
                            DimReconciliation::Consistent { dim },
                        )
                    } else {
                        r == Ok::<DimReconciliation, CoreError>(
                            DimReconciliation::Recreated { from: n as usize, to: dim },
                        )
                    },
                    None => r is Err && r->Err_0@ == dim_fault("vec_query_affinities"@, sql@),
                },
            }
        },
{
    if dim == 0 {
        return Err(CoreError::validation("affinity embedding dimension must be non-zero"));
    }
    reconcile_dim(declared, "vec_query_affinities", dim)
}

/// The declaration of a vector table of a dimension.
pub open spec fn declaration(table: Seq<char>, key: Seq<char>, dim: nat) -> Seq<char> {
    "CREATE VIRTUAL TABLE "@ + table + " USING vec0("@ + key + " TEXT PRIMARY KEY, embedding FLOAT["@
        + text::decimal(dim) + "] distance_metric=cosine)"@
}

/// Write the declaration of a vector table of a dimension.
pub fn write_declaration(table: &str, key: &str, dim: usize) -> (s: String)
    ensures
        s@ == declaration(table@, key@, dim as nat),
{
    let d = text::decimal_text(dim as u64);
    let mut s = text::text3("CREATE VIRTUAL TABLE ", table, " USING vec0(");
    s.append(key);
    s.append(" TEXT PRIMARY KEY, embedding FLOAT[");
    s.append(d.as_str());
    s.append("] distance_metric=cosine)");
    s
}

proof fn lemma_decimal(n: nat)
    ensures
        text::decimal(n).len() > 0,
        all_digits(text::decimal(n)),
        number(text::decimal(n)) == n,
    decreases n,
{
    let d = text::decimal(n);
    if n < 10 {
        assert(d.drop_last() =~= Seq::empty());
        assert(number(d.drop_last()) == 0);
    } else {
        lemma_decimal(n / 10);
        assert(d.drop_last() =~= text::decimal(n / 10));
        assert(number(d) == number(d.drop_last()) * 10 + (d.last() as nat - '0' as nat) as nat);
    }
}

/// The dimension of a declaration reads back, so a table that was just created
/// is found consistent. (The names of the tables and their keys are in lower
/// case.)
pub proof fn law_declared_dim_reads_back(table: Seq<char>, key: Seq<char>, dim: nat)
    requires
        escaping::lacks(table, 'F'),
        escaping::lacks(key, 'F'),
    ensures
        declared_dim(declaration(table, key, dim)) == Some(dim),
{
    let sql = declaration(table, key, dim);
    let digits = text::decimal(dim);
    let end = "] distance_metric=cosine)"@;
    let head = "CREATE VIRTUAL TABLE "@ + table + " USING vec0("@ + key
        + " TEXT PRIMARY KEY, embedding "@;
    reveal_strlit("CREATE VIRTUAL TABLE ");
    reveal_strlit(" USING vec0(");
    reveal_strlit(" TEXT PRIMARY KEY, embedding ");
    reveal_strlit(" TEXT PRIMARY KEY, embedding FLOAT[");
    reveal_strlit("FLOAT[");
    reveal_strlit("]");
    reveal_strlit("] distance_metric=cosine)");
    assert(escaping::lacks("CREATE VIRTUAL TABLE "@, 'F'));
    assert(escaping::lacks(" USING vec0("@, 'F'));
    assert(escaping::lacks(" TEXT PRIMARY KEY, embedding "@, 'F'));
    assert(" TEXT PRIMARY KEY, embedding FLOAT["@ =~= " TEXT PRIMARY KEY, embedding "@
        + "FLOAT["@);
    assert(sql =~= head + "FLOAT["@ + (digits + end));
    assert(escaping::lacks(head, 'F'));
    lemma_decimal(dim);
    let at = head.len() as int;
    let mark = "FLOAT["@;
    assert(sql.subrange(at, at + 6) =~= mark);
    assert(text::occurs_at(sql, mark, at));
    assert forall|j: int| 0 <= j < at implies !text::occurs_at(sql, mark, j) by {
        if text::occurs_at(sql, mark, j) {
            assert(sql.subrange(j, j + 6)[0] == mark[0]);
            assert(sql[j] == head[j]);
        }
    }
    text::lemma_first_unique(sql, mark, at);
    let rest = sql.skip(at + 6);
    assert(rest =~= digits + end);
    let stop = digits.len() as int;
    let bracket = "]"@;
    assert(rest.subrange(stop, stop + 1) =~= bracket);
    assert(text::occurs_at(rest, bracket, stop));
    assert forall|j: int| 0 <= j < stop implies !text::occurs_at(rest, bracket, j) by {
        if text::occurs_at(rest, bracket, j) {
            assert(rest.subrange(j, j + 1)[0] == bracket[0]);
            assert(rest[j] == digits[j]);
            assert(is_digit(digits[j]));
        }
    }
    text::lemma_first_unique(rest, bracket, stop);
    assert(rest.take(stop) =~= digits);
    assert(is_digit(digits[0]));
}

} // verus!
