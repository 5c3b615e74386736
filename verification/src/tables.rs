//! What tables of rows have in common: rows are found by their identifier and
//! copied as they are.
use vstd::prelude::*;
use vstd::string::*;

use crate::ids::Id;
use crate::ordering;
use crate::text;

verus! {

/// A row that can be copied.
pub trait Copied: View + Sized {
    fn copy(&self) -> (r: Self)
        ensures
            r@ == self@,
    ;
}

/// A row with an identifier.
pub trait HasId: View + Sized {
    /// The identifier.
    spec fn id_of(row: Self::V) -> Id;

    fn row_id(&self) -> (r: Id)
        ensures
            r == Self::id_of(self@),
    ;
}

/// The first of the first `n` rows that has the identifier.
pub open spec fn row_at<T: HasId>(rows: Seq<T::V>, id: Id, n: nat) -> Option<int>
    decreases n,
{
    if n == 0 {
        None
    } else {
        match row_at::<T>(rows, id, (n - 1) as nat) {
            Some(i) => Some(i),
            None => if T::id_of(rows[n - 1]) == id {
                Some(n - 1)
            } else {
                None
            },
        }
    }
}

/// The row with an identifier, where there is one.
pub open spec fn row_of<T: HasId>(rows: Seq<T::V>, id: Id) -> Option<int> {
    row_at::<T>(rows, id, rows.len())
}

/// No identifier occurs twice.
pub open spec fn distinct<T: HasId>(rows: Seq<T::V>) -> bool {
    forall|i: int, j: int|
        0 <= i < j < rows.len() ==> T::id_of(#[trigger] rows[i]) != T::id_of(#[trigger] rows[j])
}

pub proof fn lemma_row_at<T: HasId>(rows: Seq<T::V>, id: Id, n: nat)
    requires
        n <= rows.len(),
    ensures
        match row_at::<T>(rows, id, n) {
            Some(i) => 0 <= i < n && T::id_of(rows[i]) == id && forall|j: int|
                0 <= j < i ==> T::id_of(#[trigger] rows[j]) != id,
            None => forall|j: int| 0 <= j < n ==> T::id_of(#[trigger] rows[j]) != id,
        },
    decreases n,
{
    if n > 0 {
        lemma_row_at::<T>(rows, id, (n - 1) as nat);
    }
}

/// Find the row with an identifier.
pub fn find_row<T: HasId>(rows: &Vec<T>, id: Id) -> (r: Option<usize>)
    ensures
        match r {
            Some(i) => i < rows.len() && row_of::<T>(ordering::views(rows@), id) == Some(i as int)
                && T::id_of(rows@[i as int]@) == id,
            None => row_of::<T>(ordering::views(rows@), id) is None,
        },
{
    let ghost held = ordering::views(rows@);
    let mut found: Option<usize> = None;
    let mut k: usize = 0;
    while k < rows.len()
        invariant
            k <= rows.len(),
            held == ordering::views(rows@),
            match found {
                Some(i) => i < k && row_at::<T>(held, id, k as nat) == Some(i as int) && T::id_of(
                    rows@[i as int]@,
                ) == id,
                None => row_at::<T>(held, id, k as nat) is None,
            },
        decreases rows.len() - k,
    {
        proof {
            assert(held[k as int] == rows@[k as int]@);
        }
        if found.is_none() && rows[k].row_id() == id {
            found = Some(k);
        }
        k += 1;
    }
    found
}

/// Copy rows.
pub fn copy_rows<T: Copied>(rows: &Vec<T>) -> (r: Vec<T>)
    ensures
        ordering::views(r@) == ordering::views(rows@),
{
    let ghost held = ordering::views(rows@);
    let mut out: Vec<T> = Vec::new();
    let mut i: usize = 0;
    proof {
        assert(ordering::views(out@) =~= held.take(0));
    }
    while i < rows.len()
        invariant
            i <= rows.len(),
            held == ordering::views(rows@),
            ordering::views(out@) == held.take(i as int),
        decreases rows.len() - i,
    {
        let ghost before = out@;
        let row = rows[i].copy();
        let ghost copied = row@;
        out.push(row);
        proof {
            assert(ordering::views(out@) =~= ordering::views(before).push(copied));
            assert(held.take(i + 1) =~= held.take(i as int).push(held[i as int]));
        }
        i += 1;
    }
    proof {
        assert(held.take(i as int) =~= held);
    }
    out
}

/// Copy strings.
pub fn copy_texts(strings: &Vec<String>) -> (r: Vec<String>)
    ensures
        text::texts(r@) == text::texts(strings@),
{
    let mut out: Vec<String> = Vec::new();
    let mut i: usize = 0;
    while i < strings.len()
        invariant
            i <= strings.len(),
            out.len() == i,
            forall|j: int| 0 <= j < i ==> (#[trigger] out@[j])@ == strings@[j]@,
        decreases strings.len() - i,
    {
        out.push(strings[i].clone());
        i += 1;
    }
    proof {
        assert(text::texts(out@) =~= text::texts(strings@));
    }
    out
}

/// Whether one of the tags is `tag`.
pub fn is_tagged(tags: &Vec<String>, tag: &str) -> (r: bool)
    ensures
        r == text::texts(tags@).contains(tag@),
{
    let ghost held = text::texts(tags@);
    let mut k: usize = 0;
    while k < tags.len()
        invariant
            k <= tags.len(),
            held == text::texts(tags@),
            forall|j: int| 0 <= j < k ==> held[j] != tag@,
        decreases tags.len() - k,
    {
        proof {
            assert(held[k as int] == tags@[k as int]@);
        }
        if text::same(tags[k].as_str(), tag) {
            return true;
        }
        k += 1;
    }
    false
}

/// The text of an optional string.
pub open spec fn opt_text(s: Option<String>) -> Option<Seq<char>> {
    match s {
        Some(s) => Some(s@),
        None => None,
    }
}

/// Copy an optional string.
pub fn copy_opt(s: &Option<String>) -> (r: Option<String>)
    ensures
        opt_text(r) == opt_text(*s),
{
    match s {
        Some(s) => Some(s.clone()),
        None => None,
    }
}

/// The rows from `offset` on, `limit` of them at most.
pub open spec fn page<A>(rows: Seq<A>, offset: nat, limit: nat) -> Seq<A> {
    let from = if offset <= rows.len() {
        offset as int
    } else {
        rows.len() as int
    };
    let to = if from + limit <= rows.len() {
        from + limit
    } else {
        rows.len() as int
    };
    rows.subrange(from, to)
}

/// Keep one page of rows.
pub fn take_page<T: View>(rows: Vec<T>, offset: u32, limit: u32) -> (r: Vec<T>)
    ensures
        ordering::views(r@) == page(ordering::views(rows@), offset as nat, limit as nat),
{
    let ghost all = rows@;
    let ghost held = ordering::views(all);
    let total: u128 = rows.len() as u128;
    let from: u128 = if offset as u128 <= total {
        offset as u128
    } else {
        total
    };
    let to: u128 = if from + limit as u128 <= total {
        from + limit as u128
    } else {
        total
    };
    let mut out: Vec<T> = Vec::new();
    let mut i: u128 = 0;
    proof {
        assert(ordering::views(out@) =~= Seq::empty());
    }
    for row in it: rows
        invariant
            it.seq() == all,
            held == ordering::views(all),
            total == all.len(),
            i == it.index(),
            from <= to <= total,
            ordering::views(out@) == held.subrange(
                if from <= i {
                    from as int
                } else {
                    i as int
                },
                if to <= i {
                    to as int
                } else {
                    i as int
                },
            ),
    {
        let ghost before = out@;
        let ghost kept = row@;
        proof {
            assert(held[i as int] == kept);
        }
        if from <= i && i < to {
            out.push(row);
            proof {
                assert(ordering::views(out@) =~= ordering::views(before).push(kept));
                assert(held.subrange(from as int, i + 1) =~= held.subrange(
                    from as int,
                    i as int,
                ).push(held[i as int]));
            }
        } else {
            proof {
                if i < from {
                    assert(held.subrange(i + 1, i + 1) =~= held.subrange(i as int, i as int));
                    assert(held.subrange(from as int, from as int) =~= held.subrange(
                        i as int,
                        i as int,
                    ));
                }
            }
        }
        i += 1;
    }
    out
}

} // verus!
