//! What holds of a lookup of learned examples.
use vstd::prelude::*;
use vstd::string::*;

use crate::affinity_merge;
use crate::float_bits::{self, F64Bits};
use crate::ids::Id;
use crate::memory_model::AffinityHit;
use crate::ordering;
use crate::ranking::{self, AffinityFilter, Candidate, Catalog, EntryFacts, RawAffinity};
use crate::signals::{self, Affinity};
use crate::text;

verus! {

/// The first example of that identifier stands at `i`.
pub open spec fn is_example(rows: Seq<Affinity>, id: Id, i: int) -> bool {
    &&& 0 <= i < rows.len()
    &&& rows[i].id == id
    &&& forall|j: int| 0 <= j < i ==> (#[trigger] rows[j]).id != id
}

/// The entry has the tag.
pub open spec fn has_tag(e: EntryFacts, tag: Seq<char>) -> bool {
    exists|k: int| 0 <= k < e.tags@.len() && (#[trigger] e.tags@[k])@ == tag
}

/// The catalog's entry at `e` is the example's, and may be shown.
pub open spec fn may_be_shown(
    catalog: Catalog,
    e: int,
    entry: Id,
    include_benchmark: bool,
) -> bool {
    &&& 0 <= e < catalog.entries@.len()
    &&& catalog.entries@[e].id == entry
    &&& catalog.entries@[e].benchmark ==> include_benchmark
}

/// The catalog's block at `b` is that one, and belongs to the entry.
pub open spec fn is_block(catalog: Catalog, b: int, entry: Id, block: Id) -> bool {
    0 <= b < catalog.blocks@.len() && catalog.blocks@[b].id == block && catalog.blocks@[b].entry_id
        == entry
}

/// The catalog's chunk at `c` is that one, and stands in the block at `b`, which
/// belongs to the entry.
pub open spec fn is_chunk(catalog: Catalog, c: int, b: int, entry: Id, chunk: Id) -> bool {
    0 <= c < catalog.chunks@.len() && catalog.chunks@[c].0 == chunk && is_block(
        catalog,
        b,
        entry,
        catalog.chunks@[c].1,
    )
}

/// The candidate tells of the example, with its similarity. It names the block
/// and the chunk only where they still belong to the entry.
pub open spec fn tells_of(
    c: RawAffinity,
    a: Affinity,
    catalog: Catalog,
    similarity: F64Bits,
) -> bool {
    &&& c.affinity_id == a.id
    &&& c.entry_id == a.entry_id
    &&& c.similarity == similarity
    &&& c.reinforcement_count == a.reinforcement_count
    &&& a.last_reinforced_at.time == Some(c.last_reinforced_at)
    &&& c.block_id is Some <==> a.block_id is Some && exists|b: int| #[trigger]
        is_block(catalog, b, a.entry_id, a.block_id->0)
    &&& c.block_id is Some ==> c.block_id == a.block_id
    &&& c.chunk_id is Some <==> a.chunk_id is Some && exists|h: int, b: int| #[trigger]
        is_chunk(catalog, h, b, a.entry_id, a.chunk_id->0)
    &&& c.chunk_id is Some ==> c.chunk_id == a.chunk_id
}

proof fn lemma_example(rows: Seq<Affinity>, id: Id, n: nat)
    requires
        n <= rows.len(),
    ensures
        match affinity_merge::first_row(rows, |a: Affinity| a.id == id, n) {
            Some(i) => 0 <= i < n && is_example(rows, id, i),
            None => forall|j: int| 0 <= j < n ==> (#[trigger] rows[j]).id != id,
        },
    decreases n,
{
    if n > 0 {
        lemma_example(rows, id, (n - 1) as nat);
    }
}

proof fn lemma_texts(strings: Seq<String>, s: Seq<char>)
    ensures
        text::texts(strings).contains(s) <==> exists|k: int|
            0 <= k < strings.len() && (#[trigger] strings[k])@ == s,
{
    let held = text::texts(strings);
    if held.contains(s) {
        let k = choose|k: int| 0 <= k < held.len() && held[k] == s;
        assert(strings[k]@ == s);
    }
    if exists|k: int| 0 <= k < strings.len() && (#[trigger] strings[k])@ == s {
        let k = choose|k: int| 0 <= k < strings.len() && (#[trigger] strings[k])@ == s;
        assert(held[k] == s);
    }
}

proof fn lemma_shows(catalog: Catalog, entry: Id, filter: AffinityFilter)
    ensures
        catalog.shows(entry, filter) <==> exists|e: int|
            #![trigger may_be_shown(catalog, e, entry, filter.include_benchmark)]
            may_be_shown(catalog, e, entry, filter.include_benchmark) && (filter.tag is Some
                ==> has_tag(catalog.entries@[e], filter.tag->0@)),
{
    if catalog.shows(entry, filter) {
        let e = choose|i: int|
            0 <= i < catalog.entries@.len() && (#[trigger] catalog.entries@[i]).id == entry && (
            filter.include_benchmark || !catalog.entries@[i].benchmark) && (filter.tag is None
                || text::texts(catalog.entries@[i].tags@).contains(filter.tag->0@));
        if filter.tag is Some {
            lemma_texts(catalog.entries@[e].tags@, filter.tag->0@);
        }
        assert(may_be_shown(catalog, e, entry, filter.include_benchmark));
    }
    if exists|e: int|
        #![trigger may_be_shown(catalog, e, entry, filter.include_benchmark)]
        may_be_shown(catalog, e, entry, filter.include_benchmark) && (filter.tag is Some
            ==> has_tag(catalog.entries@[e], filter.tag->0@)) {
        let e = choose|e: int|
            #![trigger may_be_shown(catalog, e, entry, filter.include_benchmark)]
            may_be_shown(catalog, e, entry, filter.include_benchmark) && (filter.tag is Some
                ==> has_tag(catalog.entries@[e], filter.tag->0@));
        if filter.tag is Some {
            lemma_texts(catalog.entries@[e].tags@, filter.tag->0@);
        }
        assert(catalog.entries@[e].id == entry);
    }
}

proof fn lemma_tells(a: Affinity, catalog: Catalog, similarity: F64Bits)
    requires
        a.last_reinforced_at.time is Some,
    ensures
        tells_of(ranking::seen(a, catalog, similarity), a, catalog, similarity),
{
    if a.block_id is Some {
        let block = a.block_id->0;
        if catalog.owns_block(a.entry_id, block) {
            let b = choose|i: int|
                0 <= i < catalog.blocks@.len() && (#[trigger] catalog.blocks@[i]).id == block
                    && catalog.blocks@[i].entry_id == a.entry_id;
            assert(is_block(catalog, b, a.entry_id, block));
        }
    }
    if a.chunk_id is Some {
        let chunk = a.chunk_id->0;
        if catalog.owns_chunk(a.entry_id, chunk) {
            let h = choose|i: int|
                0 <= i < catalog.chunks@.len() && (#[trigger] catalog.chunks@[i]).0 == chunk
                    && catalog.owns_block(a.entry_id, catalog.chunks@[i].1);
            let b = choose|i: int|
                0 <= i < catalog.blocks@.len() && (#[trigger] catalog.blocks@[i]).id
                    == catalog.chunks@[h].1 && catalog.blocks@[i].entry_id == a.entry_id;
            assert(is_chunk(catalog, h, b, a.entry_id, chunk));
        }
        if exists|h: int, b: int| #[trigger] is_chunk(catalog, h, b, a.entry_id, chunk) {
            let (h, b) = choose|h: int, b: int| #[trigger]
                is_chunk(catalog, h, b, a.entry_id, chunk);
            assert(catalog.blocks@[b].id == catalog.chunks@[h].1);
            assert(catalog.owns_block(a.entry_id, catalog.chunks@[h].1));
            assert(catalog.chunks@[h].0 == chunk);
        }
    }
}

/// The candidate comes from the vector at `v`, whose example stands at `i`.
pub open spec fn comes_from(
    rows: Seq<Affinity>,
    catalog: Catalog,
    vectors: Seq<(Id, F64Bits)>,
    c: RawAffinity,
    v: int,
    i: int,
) -> bool {
    &&& 0 <= v < vectors.len()
    &&& is_example(rows, vectors[v].0, i)
    &&& tells_of(c, rows[i], catalog, vectors[v].1)
}

/// The example was learned with the model that is asked for, its entry exists,
/// is no fixture unless those are shown, and has the tag where one is named;
/// and it leads to a block of the type where one is named.
pub open spec fn is_wanted(a: Affinity, catalog: Catalog, filter: AffinityFilter) -> bool {
    &&& a.embedding_model@ == filter.model@
    &&& a.embedding_dim == filter.dim
    &&& exists|e: int|
        #![trigger may_be_shown(catalog, e, a.entry_id, filter.include_benchmark)]
        may_be_shown(catalog, e, a.entry_id, filter.include_benchmark) && (filter.tag is Some
            ==> has_tag(catalog.entries@[e], filter.tag->0@))
    &&& filter.block_type is Some ==> a.block_id is Some && exists|b: int|
        #![trigger is_block(catalog, b, a.entry_id, a.block_id->0)]
        is_block(catalog, b, a.entry_id, a.block_id->0) && catalog.blocks@[b].type_@
            == filter.block_type->0@
}

proof fn lemma_wanted(a: Affinity, catalog: Catalog, filter: AffinityFilter)
    ensures
        ranking::takes_part(a, catalog, filter) <==> is_wanted(a, catalog, filter),
{
    lemma_shows(catalog, a.entry_id, filter);
    if filter.block_type is Some && a.block_id is Some {
        let (block, ty) = (a.block_id->0, filter.block_type->0@);
        if catalog.owns_block_of_type(a.entry_id, block, ty) {
            let b = choose|i: int|
                0 <= i < catalog.blocks@.len() && (#[trigger] catalog.blocks@[i]).id == block
                    && catalog.blocks@[i].entry_id == a.entry_id && catalog.blocks@[i].type_@ == ty;
            assert(is_block(catalog, b, a.entry_id, block));
        }
        if exists|b: int|
            #![trigger is_block(catalog, b, a.entry_id, block)]
            is_block(catalog, b, a.entry_id, block) && catalog.blocks@[b].type_@ == ty {
            let b = choose|b: int|
                #![trigger is_block(catalog, b, a.entry_id, block)]
                is_block(catalog, b, a.entry_id, block) && catalog.blocks@[b].type_@ == ty;
            assert(catalog.blocks@[b].id == block);
        }
    }
}

proof fn lemma_earlier_ok(
    rows: Seq<Affinity>,
    catalog: Catalog,
    filter: AffinityFilter,
    vectors: Seq<(Id, F64Bits)>,
    n: nat,
)
    requires
        0 < n <= vectors.len(),
        ranking::looked_up(rows, catalog, filter, vectors, n) is Ok,
    ensures
        ({
            let before = ranking::looked_up(rows, catalog, filter, vectors, (n - 1) as nat);
            let out = ranking::looked_up(rows, catalog, filter, vectors, n)->Ok_0;
            let at = affinity_merge::row_of_id(rows, vectors[n - 1].0);
            let more = at is Some && is_wanted(rows[at->0], catalog, filter);
            &&& before is Ok
            &&& at is Some ==> is_example(rows, vectors[n - 1].0, at->0)
            &&& at is None ==> forall|j: int|
                0 <= j < rows.len() ==> (#[trigger] rows[j]).id != vectors[n - 1].0
            &&& !more ==> out == before->Ok_0
            &&& more ==> out == before->Ok_0.push(out.last()) && out.len() > 0 && comes_from(
                rows,
                catalog,
                vectors,
                out.last(),
                n - 1,
                at->0,
            )
        }),
{
    let id = vectors[n - 1].0;
    lemma_example(rows, id, rows.len());
    let at = affinity_merge::row_of_id(rows, id);
    if at is Some {
        lemma_wanted(rows[at->0], catalog, filter);
        if is_wanted(rows[at->0], catalog, filter) {
            lemma_tells(rows[at->0], catalog, vectors[n - 1].1);
        }
    }
}

proof fn lemma_candidate(
    rows: Seq<Affinity>,
    catalog: Catalog,
    filter: AffinityFilter,
    vectors: Seq<(Id, F64Bits)>,
    n: nat,
    v: int,
    i: int,
) -> (k: int)
    requires
        0 <= v < n <= vectors.len(),
        is_example(rows, vectors[v].0, i),
        is_wanted(rows[i], catalog, filter),
        ranking::looked_up(rows, catalog, filter, vectors, n) is Ok,
    ensures
        ({
            let out = ranking::looked_up(rows, catalog, filter, vectors, n)->Ok_0;
            0 <= k < out.len() && comes_from(rows, catalog, vectors, out[k], v, i)
        }),
    decreases n,
{
    lemma_earlier_ok(rows, catalog, filter, vectors, n);
    let out = ranking::looked_up(rows, catalog, filter, vectors, n)->Ok_0;
    if v < n - 1 {
        let k = lemma_candidate(rows, catalog, filter, vectors, (n - 1) as nat, v, i);
        let before = ranking::looked_up(rows, catalog, filter, vectors, (n - 1) as nat)->Ok_0;
        assert(out[k] == before[k]);
        k
    } else {
        let at = affinity_merge::row_of_id(rows, vectors[v].0);
        assert(at == Some(i)) by {
            if at is None {
                assert(rows[i].id != vectors[v].0);
            } else if at->0 < i {
                assert(rows[at->0].id != vectors[v].0);
            } else if i < at->0 {
                assert(rows[i].id != vectors[v].0);
            }
        }
        out.len() - 1
    }
}

proof fn lemma_origin(
    rows: Seq<Affinity>,
    catalog: Catalog,
    filter: AffinityFilter,
    vectors: Seq<(Id, F64Bits)>,
    n: nat,
    k: int,
) -> (r: (int, int))
    requires
        n <= vectors.len(),
        ranking::looked_up(rows, catalog, filter, vectors, n) matches Ok(out) && 0 <= k
            < out.len(),
    ensures
        k <= r.0 < n,
        comes_from(
            rows,
            catalog,
            vectors,
            ranking::looked_up(rows, catalog, filter, vectors, n)->Ok_0[k],
            r.0,
            r.1,
        ),
        is_wanted(rows[r.1], catalog, filter),
        ranking::looked_up(rows, catalog, filter, vectors, n)->Ok_0.len() <= n,
    decreases n,
{
    if n == 0 {
        (0, 0)
    } else {
        lemma_earlier_ok(rows, catalog, filter, vectors, n);
        let out = ranking::looked_up(rows, catalog, filter, vectors, n)->Ok_0;
        let before = ranking::looked_up(rows, catalog, filter, vectors, (n - 1) as nat)->Ok_0;
        if k < before.len() {
            assert(out[k] == before[k]);
            lemma_origin(rows, catalog, filter, vectors, (n - 1) as nat, k)
        } else {
            if before.len() > 0 {
                let r = lemma_origin(rows, catalog, filter, vectors, (n - 1) as nat, 0);
            }
            assert(out[k] == out.last());
            (n - 1, affinity_merge::row_of_id(rows, vectors[n - 1].0)->0)
        }
    }
}

proof fn lemma_failure(
    rows: Seq<Affinity>,
    catalog: Catalog,
    filter: AffinityFilter,
    vectors: Seq<(Id, F64Bits)>,
    n: nat,
) -> (r: (int, int))
    requires
        n <= vectors.len(),
        ranking::looked_up(rows, catalog, filter, vectors, n) is Err,
    ensures
        0 <= r.0 < n,
        is_example(rows, vectors[r.0].0, r.1),
        is_wanted(rows[r.1], catalog, filter),
        rows[r.1].last_reinforced_at.time is None,
    decreases n,
{
    if n == 0 {
        (0, 0)
    } else if ranking::looked_up(rows, catalog, filter, vectors, (n - 1) as nat) is Err {
        lemma_failure(rows, catalog, filter, vectors, (n - 1) as nat)
    } else {
        let id = vectors[n - 1].0;
        lemma_example(rows, id, rows.len());
        let at = affinity_merge::row_of_id(rows, id);
        lemma_wanted(rows[at->0], catalog, filter);
        (n - 1, at->0)
    }
}

/// Where no tag and no block type are named, every example of the model and
/// dimension whose entry exists and is no hidden fixture is a candidate of its
/// vector. Where a tag is named, the entry must have it; where a block type is
/// named, the example must lead to a block of that type.
pub proof fn law_wanted_examples_are_candidates(
    rows: Seq<Affinity>,
    catalog: Catalog,
    filter: AffinityFilter,
    vectors: Seq<(Id, F64Bits)>,
    v: int,
    i: int,
    e: int,
    b: int,
) -> (k: int)
    requires
        0 <= v < vectors.len(),
        is_example(rows, vectors[v].0, i),
        rows[i].embedding_model@ == filter.model@,
        rows[i].embedding_dim == filter.dim,
        may_be_shown(catalog, e, rows[i].entry_id, filter.include_benchmark),
        filter.tag is Some ==> has_tag(catalog.entries@[e], filter.tag->0@),
        filter.block_type is Some ==> rows[i].block_id is Some && is_block(
            catalog,
            b,
            rows[i].entry_id,
            rows[i].block_id->0,
        ) && catalog.blocks@[b].type_@ == filter.block_type->0@,
    ensures
        match ranking::looked_up(rows, catalog, filter, vectors, vectors.len()) {
            Ok(out) => 0 <= k < out.len() && tells_of(out[k], rows[i], catalog, vectors[v].1),
            Err(_) => 0 <= k < rows.len() && rows[k].last_reinforced_at.time is None,
        },
{
    assert(is_wanted(rows[i], catalog, filter));
    if ranking::looked_up(rows, catalog, filter, vectors, vectors.len()) is Ok {
        lemma_candidate(rows, catalog, filter, vectors, vectors.len(), v, i)
    } else {
        lemma_failure(rows, catalog, filter, vectors, vectors.len()).1
    }
}

/// Every candidate comes from one of the vectors, and its example was asked
/// for: the model and dimension, an entry that may be shown and has the tag, a
/// block of the type.
pub proof fn law_candidates_were_asked_for(
    rows: Seq<Affinity>,
    catalog: Catalog,
    filter: AffinityFilter,
    vectors: Seq<(Id, F64Bits)>,
    k: int,
) -> (r: (int, int))
    requires
        ranking::looked_up(rows, catalog, filter, vectors, vectors.len()) matches Ok(out) && 0 <= k
            < out.len(),
    ensures
        comes_from(
            rows,
            catalog,
            vectors,
            ranking::looked_up(rows, catalog, filter, vectors, vectors.len())->Ok_0[k],
            r.0,
            r.1,
        ),
        is_wanted(rows[r.1], catalog, filter),
        ranking::looked_up(rows, catalog, filter, vectors, vectors.len())->Ok_0.len()
            <= vectors.len(),
{
    lemma_origin(rows, catalog, filter, vectors, vectors.len(), k)
}

/// A lookup fails only where an example that was asked for has no readable
/// time, and then it does.
pub proof fn law_lookup_fails_on_unreadable_times(
    rows: Seq<Affinity>,
    catalog: Catalog,
    filter: AffinityFilter,
    vectors: Seq<(Id, F64Bits)>,
)
    ensures
        ranking::looked_up(rows, catalog, filter, vectors, vectors.len()) is Err <==> exists|
            v: int,
            i: int,
        |
            0 <= v < vectors.len() && #[trigger] is_example(rows, vectors[v].0, i) && is_wanted(
                rows[i],
                catalog,
                filter,
            ) && rows[i].last_reinforced_at.time is None,
{
    if ranking::looked_up(rows, catalog, filter, vectors, vectors.len()) is Err {
        let (v, i) = lemma_failure(rows, catalog, filter, vectors, vectors.len());
        assert(is_example(rows, vectors[v].0, i));
    } else if exists|v: int, i: int|
        0 <= v < vectors.len() && #[trigger] is_example(rows, vectors[v].0, i) && is_wanted(
            rows[i],
            catalog,
            filter,
        ) && rows[i].last_reinforced_at.time is None {
        let (v, i) = choose|v: int, i: int|
            0 <= v < vectors.len() && #[trigger] is_example(rows, vectors[v].0, i) && is_wanted(
                rows[i],
                catalog,
                filter,
            ) && rows[i].last_reinforced_at.time is None;
        let k = lemma_candidate(rows, catalog, filter, vectors, vectors.len(), v, i);
    }
}

/// Candidates stand in the order of their vectors, and no vector gives two.
pub proof fn law_candidates_keep_the_order_of_vectors(
    rows: Seq<Affinity>,
    catalog: Catalog,
    filter: AffinityFilter,
    vectors: Seq<(Id, F64Bits)>,
    n: nat,
    k: int,
    l: int,
) -> (r: (int, int, int, int))
    requires
        n <= vectors.len(),
        ranking::looked_up(rows, catalog, filter, vectors, n) matches Ok(out) && 0 <= k < l
            < out.len(),
    ensures
        r.0 < r.2,
        comes_from(
            rows,
            catalog,
            vectors,
            ranking::looked_up(rows, catalog, filter, vectors, n)->Ok_0[k],
            r.0,
            r.1,
        ),
        comes_from(
            rows,
            catalog,
            vectors,
            ranking::looked_up(rows, catalog, filter, vectors, n)->Ok_0[l],
            r.2,
            r.3,
        ),
    decreases n,
{
    if n == 0 {
        (0, 0, 0, 0)
    } else {
        lemma_earlier_ok(rows, catalog, filter, vectors, n);
        let out = ranking::looked_up(rows, catalog, filter, vectors, n)->Ok_0;
        let before = ranking::looked_up(rows, catalog, filter, vectors, (n - 1) as nat)->Ok_0;
        assert(k < before.len() && out[k] == before[k]);
        if l < before.len() {
            assert(out[l] == before[l]);
            law_candidates_keep_the_order_of_vectors(
                rows,
                catalog,
                filter,
                vectors,
                (n - 1) as nat,
                k,
                l,
            )
        } else {
            let (v, i) = lemma_origin(rows, catalog, filter, vectors, (n - 1) as nat, k);
            assert(out[l] == out.last());
            (v, i, n - 1, affinity_merge::row_of_id(rows, vectors[n - 1].0)->0)
        }
    }
}

/// The pattern is a number, possibly an infinite one.
pub open spec fn is_no_nan(bits: u64) -> bool {
    bits <= 0x7ff0_0000_0000_0000 || 0x8000_0000_0000_0000 <= bits <= 0xfff0_0000_0000_0000
}

/// Numbers compare as their patterns do where both are positive, the other way
/// round where both are negative; a negative number is below a positive one,
/// but for the two zeros, which are equal.
pub open spec fn is_below(a: u64, b: u64) -> bool {
    if a < 0x8000_0000_0000_0000 && b < 0x8000_0000_0000_0000 {
        a < b
    } else if a < 0x8000_0000_0000_0000 {
        false
    } else if b < 0x8000_0000_0000_0000 {
        a != 0x8000_0000_0000_0000 || b != 0
    } else {
        b < a
    }
}

/// An example is kept where its similarity is a number and not below the
/// threshold, and only there; those that are kept stay in order.
pub proof fn law_near_examples_are_kept(raws: Seq<RawAffinity>, threshold: F64Bits)
    ensures
        ranking::near(raws, threshold) == raws.filter(
            |r: RawAffinity|
                is_no_nan(r.similarity) && is_no_nan(threshold) && !is_below(
                    r.similarity,
                    threshold,
                ),
        ),
{
    let keep = |r: RawAffinity| float_bits::at_least(r.similarity, threshold);
    let wanted = |r: RawAffinity|
        is_no_nan(r.similarity) && is_no_nan(threshold) && !is_below(r.similarity, threshold);
    assert(keep =~= wanted);
}

/// `a` precedes `b` in the order of all patterns: negative before positive,
/// the negative ones the other way round.
pub open spec fn is_under(a: u64, b: u64) -> bool {
    if a < 0x8000_0000_0000_0000 {
        b < 0x8000_0000_0000_0000 && a < b
    } else {
        b < 0x8000_0000_0000_0000 || b < a
    }
}

/// `x` is at least as strong as `y`: more confident, or as confident and
/// nearer, or as near and the smaller in entry and example.
pub open spec fn as_strong(x: Candidate, y: Candidate) -> bool {
    &&& !is_under(x.confidence, y.confidence)
    &&& x.confidence == y.confidence ==> {
        &&& !is_under(x.raw.similarity, y.raw.similarity)
        &&& x.raw.similarity == y.raw.similarity ==> {
            &&& x.raw.entry_id <= y.raw.entry_id
            &&& x.raw.entry_id == y.raw.entry_id ==> x.raw.affinity_id <= y.raw.affinity_id
        }
    }
}

/// The hit is for the candidate's entry and says what the candidate does.
pub open spec fn is_hit_of(hit: AffinityHit, c: Candidate) -> bool {
    &&& hit.entry_id == c.raw.entry_id
    &&& hit.block_id == c.raw.block_id
    &&& hit.chunk_id == c.raw.chunk_id
    &&& hit.similarity == c.raw.similarity
    &&& hit.confidence == c.confidence
}

proof fn lemma_stronger(x: Candidate, y: Candidate)
    ensures
        !ranking::stronger(y, x) <==> as_strong(x, y),
{
}

proof fn lemma_hit_origin(rows: Seq<Candidate>, limit: nat, n: nat, k: int) -> (m: int)
    requires
        n <= rows.len(),
        0 <= k < ranking::hits_of(rows, limit, n).len(),
    ensures
        k <= m < n,
        is_hit_of(ranking::hits_of(rows, limit, n)[k], rows[m]),
        forall|x: int|
            0 <= x < m ==> (#[trigger] rows[x]).raw.entry_id != rows[m].raw.entry_id,
        forall|x: int|
            #![trigger rows[x]]
            0 <= x < m ==> exists|j: int|
                0 <= j < k && (#[trigger] ranking::hits_of(rows, limit, n)[j]).entry_id
                    == rows[x].raw.entry_id,
    decreases n,
{
    if n == 0 {
        0
    } else {
        let p = (n - 1) as nat;
        let before = ranking::hits_of(rows, limit, p);
        let hits = ranking::hits_of(rows, limit, n);
        if k < before.len() {
            let m = lemma_hit_origin(rows, limit, p, k);
            assert(hits[k] == before[k]);
            assert forall|x: int|
                #![trigger rows[x]]
                0 <= x < m implies exists|j: int|
                0 <= j < k && (#[trigger] hits[j]).entry_id == rows[x].raw.entry_id by {
                let j = choose|j: int|
                    0 <= j < k && (#[trigger] before[j]).entry_id == rows[x].raw.entry_id;
                assert(hits[j] == before[j]);
            }
            m
        } else {
            assert(k == before.len());
            lemma_all_hit(rows, limit, p);
            assert forall|x: int|
                #![trigger rows[x]]
                0 <= x < n - 1 implies exists|j: int|
                0 <= j < k && (#[trigger] hits[j]).entry_id == rows[x].raw.entry_id by {
                assert(ranking::is_hit(before, rows[x].raw.entry_id));
                let j = choose|j: int|
                    0 <= j < before.len() && (#[trigger] before[j]).entry_id
                        == rows[x].raw.entry_id;
                assert(hits[j] == before[j]);
            }
            assert forall|x: int| 0 <= x < n - 1 implies (#[trigger] rows[x]).raw.entry_id
                != rows[n - 1].raw.entry_id by {
                assert(ranking::is_hit(before, rows[x].raw.entry_id));
            }
            if k > 0 {
                let q = lemma_hit_origin(rows, limit, p, k - 1);
            }
            n - 1
        }
    }
}

proof fn lemma_all_hit(rows: Seq<Candidate>, limit: nat, n: nat)
    requires
        n <= rows.len(),
    ensures
        limit > 0 ==> ranking::hits_of(rows, limit, n).len() <= limit,
        limit == 0 || ranking::hits_of(rows, limit, n).len() < limit ==> forall|m: int|
            0 <= m < n ==> ranking::is_hit(
                ranking::hits_of(rows, limit, n),
                (#[trigger] rows[m]).raw.entry_id,
            ),
    decreases n,
{
    if n > 0 {
        let p = (n - 1) as nat;
        lemma_all_hit(rows, limit, p);
        let before = ranking::hits_of(rows, limit, p);
        let hits = ranking::hits_of(rows, limit, n);
        if limit == 0 || hits.len() < limit {
            assert forall|m: int| 0 <= m < n implies ranking::is_hit(
                hits,
                (#[trigger] rows[m]).raw.entry_id,
            ) by {
                if m < p {
                    let k = choose|k: int|
                        0 <= k < before.len() && (#[trigger] before[k]).entry_id
                            == rows[m].raw.entry_id;
                    assert(hits[k].entry_id == rows[m].raw.entry_id);
                } else if !ranking::is_hit(before, rows[m].raw.entry_id) {
                    assert(hits[before.len() as int].entry_id == rows[m].raw.entry_id);
                }
            }
        }
    }
}

/// Each hit shows a candidate, `c`, and no candidate of its entry, nor of an
/// entry that has no hit before it, is stronger: so hits come by confidence,
/// then by similarity, and what the limit leaves out is no stronger than what
/// it keeps.
pub proof fn law_hits_come_by_strength(candidates: Seq<Candidate>, limit: nat, k: int) -> (c:
    Candidate)
    requires
        candidates.len() <= u32::MAX,
        0 <= k < ranking::ranked(candidates, limit).len(),
    ensures
        candidates.contains(c),
        is_hit_of(ranking::ranked(candidates, limit)[k], c),
        forall|d: Candidate|
            #![trigger candidates.contains(d)]
            candidates.contains(d) && (forall|j: int|
                0 <= j < k ==> (#[trigger] ranking::ranked(candidates, limit)[j]).entry_id
                    != d.raw.entry_id) ==> as_strong(c, d),
{
    let rows = ordering::in_order(candidates, ranking::by_strength());
    let hits = ranking::ranked(candidates, limit);
    ordering::law_in_order(candidates, ranking::by_strength());
    ordering::lemma_in_order_members(candidates, ranking::by_strength());
    let m = lemma_hit_origin(rows, limit, rows.len(), k);
    let c = rows[m];
    assert(rows.contains(c));
    assert forall|d: Candidate|
        #![trigger candidates.contains(d)]
        candidates.contains(d) && (forall|j: int|
            0 <= j < k ==> (#[trigger] hits[j]).entry_id != d.raw.entry_id) implies as_strong(
        c,
        d,
    ) by {
        assert(rows.contains(d));
        let x = choose|x: int| 0 <= x < rows.len() && rows[x] == d;
        lemma_stronger(c, d);
        if x > m {
            assert(!ranking::by_strength()(rows[x], rows[m]));
        } else if x < m {
            assert(exists|j: int| 0 <= j < k && (#[trigger] hits[j]).entry_id
                == rows[x].raw.entry_id);
        }
    }
    c
}

proof fn lemma_chosen_parts(hits: Seq<AffinityHit>, required: Seq<Id>, limit: nat, n: nat)
    requires
        n <= hits.len(),
    ensures
        ({
            let out = ranking::chosen(hits, required, limit, n);
            let other = |h: AffinityHit| !required.contains(h.entry_id);
            let wanted = |h: AffinityHit| required.contains(h.entry_id);
            let others = hits.take(n as int).filter(other);
            &&& out.filter(wanted) == hits.take(n as int).filter(wanted)
            &&& out.filter(other) == if others.len() <= limit {
                others
            } else {
                others.take(limit as int)
            }
            &&& ranking::others(hits, required, n) == others.len()
        }),
    decreases n,
{
    let other = |h: AffinityHit| !required.contains(h.entry_id);
    let wanted = |h: AffinityHit| required.contains(h.entry_id);
    let out = ranking::chosen(hits, required, limit, n);
    if n == 0 {
        reveal(Seq::filter);
        assert(hits.take(0).filter(other) =~= Seq::empty());
        assert(hits.take(0).filter(wanted) =~= Seq::empty());
        assert(out.filter(other) =~= Seq::empty());
        assert(out.filter(wanted) =~= Seq::empty());
    } else {
        let p = (n - 1) as nat;
        lemma_chosen_parts(hits, required, limit, p);
        let before = ranking::chosen(hits, required, limit, p);
        signals::lemma_filter_take(hits, n - 1, other);
        signals::lemma_filter_take(hits, n - 1, wanted);
        if out != before {
            assert(out.take(before.len() as int) =~= before);
            assert(out.take(out.len() as int) =~= out);
            signals::lemma_filter_take(out, before.len() as int, other);
            signals::lemma_filter_take(out, before.len() as int, wanted);
        }
        let others = hits.take(n as int).filter(other);
        assert(out.filter(other) =~= if others.len() <= limit {
            others
        } else {
            others.take(limit as int)
        });
    }
}

/// Of the hits, all those for required entries are chosen, and the first
/// `limit` of the others, both in the order that they had.
pub proof fn law_chosen_hits(hits: Seq<AffinityHit>, required: Seq<Id>, limit: nat)
    ensures
        ({
            let out = ranking::chosen(hits, required, limit, hits.len());
            let other = |h: AffinityHit| !required.contains(h.entry_id);
            let wanted = |h: AffinityHit| required.contains(h.entry_id);
            let others = hits.filter(other);
            &&& out.filter(wanted) == hits.filter(wanted)
            &&& out.filter(other) == if others.len() <= limit {
                others
            } else {
                others.take(limit as int)
            }
        }),
{
    lemma_chosen_parts(hits, required, limit, hits.len());
    assert(hits.take(hits.len() as int) =~= hits);
}

proof fn lemma_chosen_ranks(
    hits: Seq<AffinityHit>,
    required: Seq<Id>,
    limit: nat,
    n: nat,
    k: int,
) -> (m: int)
    requires
        n <= hits.len(),
        0 <= k < ranking::chosen(hits, required, limit, n).len(),
    ensures
        k <= m < n,
        ranking::chosen(hits, required, limit, n)[k] == hits[m],
    decreases n,
{
    if n == 0 {
        0
    } else {
        let p = (n - 1) as nat;
        let before = ranking::chosen(hits, required, limit, p);
        let out = ranking::chosen(hits, required, limit, n);
        if k < before.len() {
            assert(out[k] == before[k]);
            lemma_chosen_ranks(hits, required, limit, p, k)
        } else {
            if before.len() > 0 {
                let m = lemma_chosen_ranks(hits, required, limit, p, before.len() - 1);
            }
            n - 1
        }
    }
}

/// Hits that stood in the order of their ranks do so when they are chosen.
pub proof fn law_chosen_hits_keep_their_order(
    hits: Seq<AffinityHit>,
    required: Seq<Id>,
    limit: nat,
    n: nat,
    k: int,
    l: int,
)
    requires
        n <= hits.len(),
        forall|i: int, j: int|
            #![trigger hits[i], hits[j]]
            0 <= i < j < hits.len() ==> hits[i].affinity_rank < hits[j].affinity_rank,
        0 <= k < l < ranking::chosen(hits, required, limit, n).len(),
    ensures
        ranking::chosen(hits, required, limit, n)[k].affinity_rank < ranking::chosen(
            hits,
            required,
            limit,
            n,
        )[l].affinity_rank,
    decreases n,
{
    let p = (n - 1) as nat;
    let before = ranking::chosen(hits, required, limit, p);
    let out = ranking::chosen(hits, required, limit, n);
    if l < before.len() {
        law_chosen_hits_keep_their_order(hits, required, limit, p, k, l);
    } else {
        let x = lemma_chosen_ranks(hits, required, limit, p, k);
        assert(out[k] == hits[x]);
        assert(out[l] == hits[n - 1]);
    }
}

} // verus!
