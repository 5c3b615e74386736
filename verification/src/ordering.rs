//! Tables of rows: what they hold, and how rows are put in order. The sort is
//! stable: of two rows that neither precedes the other, the one that came
//! first stays first.
use vstd::prelude::*;

verus! {

/// An order: whether the first comes before the second.
pub type Order<A> = spec_fn(A, A) -> bool;

/// What rows hold.
pub open spec fn views<T: View>(rows: Seq<T>) -> Seq<T::V> {
    rows.map_values(|row: T| row@)
}

/// Rows that have an order, perhaps one of several.
pub trait Ranked<M>: View + Sized {
    /// The order that `mode` asks for.
    spec fn order(mode: M) -> Order<Self::V>;

    fn is_before(&self, other: &Self, mode: &M) -> (r: bool)
        ensures
            r == Self::order(*mode)(self@, other@),
    ;
}

/// Of two rows at most one comes before the other, and a row that does not
/// follow one that does not follow a third does not follow the third.
pub open spec fn is_order<A>(before: Order<A>) -> bool {
    &&& forall|a: A, b: A| !(#[trigger] before(a, b) && before(b, a))
    &&& forall|a: A, b: A, c: A|
        !(#[trigger] before(b, a)) && !(#[trigger] before(c, b)) ==> !before(c, a)
}

/// Rows with one more put behind those that do not follow it.
pub open spec fn placed<A>(rows: Seq<A>, row: A, before: Order<A>) -> Seq<A>
    decreases rows.len(),
{
    if rows.len() == 0 || !before(row, rows.last()) {
        rows.push(row)
    } else {
        placed(rows.drop_last(), row, before).push(rows.last())
    }
}

/// The first `n` rows in order.
pub open spec fn first_in_order<A>(rows: Seq<A>, before: Order<A>, n: nat) -> Seq<A>
    decreases n,
{
    if n == 0 {
        Seq::empty()
    } else {
        placed(first_in_order(rows, before, (n - 1) as nat), rows[n - 1], before)
    }
}

/// Rows in order.
pub open spec fn in_order<A>(rows: Seq<A>, before: Order<A>) -> Seq<A> {
    first_in_order(rows, before, rows.len())
}

/// No row comes before one that it stands behind.
pub open spec fn is_ordered<A>(rows: Seq<A>, before: Order<A>) -> bool {
    forall|i: int, j: int|
        0 <= i < j < rows.len() ==> !before(#[trigger] rows[j], #[trigger] rows[i])
}

proof fn lemma_placed<A>(rows: Seq<A>, row: A, before: Order<A>, p: int)
    requires
        0 <= p <= rows.len(),
        p > 0 ==> !before(row, rows[p - 1]),
        forall|i: int| p <= i < rows.len() ==> before(row, #[trigger] rows[i]),
    ensures
        placed(rows, row, before) == rows.insert(p, row),
    decreases rows.len(),
{
    if rows.len() == p {
        assert(rows.push(row) =~= rows.insert(p, row));
    } else {
        assert(before(row, rows[rows.len() - 1]));
        let head = rows.drop_last();
        lemma_placed(head, row, before, p);
        assert(head.insert(p, row).push(rows.last()) =~= rows.insert(p, row));
    }
}

proof fn lemma_place<A>(rows: Seq<A>, row: A, before: Order<A>) -> (p: int)
    ensures
        0 <= p <= rows.len(),
        placed(rows, row, before) == rows.insert(p, row),
        p > 0 ==> !before(row, rows[p - 1]),
        forall|i: int| p <= i < rows.len() ==> before(row, #[trigger] rows[i]),
    decreases rows.len(),
{
    if rows.len() == 0 || !before(row, rows.last()) {
        assert(rows.push(row) =~= rows.insert(rows.len() as int, row));
        rows.len() as int
    } else {
        let head = rows.drop_last();
        let p = lemma_place(head, row, before);
        assert(head.insert(p, row).push(rows.last()) =~= rows.insert(p, row));
        assert forall|i: int| p <= i < rows.len() implies before(row, #[trigger] rows[i]) by {
            if i < head.len() {
                assert(before(row, head[i]));
            }
        }
        p
    }
}

proof fn lemma_first_in_order<A>(rows: Seq<A>, before: Order<A>, n: nat)
    requires
        n <= rows.len(),
        is_order(before),
    ensures
        is_ordered(first_in_order(rows, before, n), before),
        first_in_order(rows, before, n).to_multiset() == rows.take(n as int).to_multiset(),
        first_in_order(rows, before, n).len() == n,
    decreases n,
{
    if n == 0 {
        assert(rows.take(0) =~= Seq::empty());
    } else {
        let m = (n - 1) as nat;
        lemma_first_in_order(rows, before, m);
        let head = first_in_order(rows, before, m);
        let row = rows[n - 1];
        let p = lemma_place(head, row, before);
        let after = head.insert(p, row);
        vstd::seq_lib::to_multiset_insert(head, p, row);
        vstd::seq_lib::to_multiset_build(rows.take(n - 1), row);
        assert(rows.take(n as int) =~= rows.take(n - 1).push(row));
        assert forall|i: int, j: int| 0 <= i < j < after.len() implies !before(
            #[trigger] after[j],
            #[trigger] after[i],
        ) by {
            let a = if i < p {
                i
            } else {
                i - 1
            };
            let b = if j < p {
                j
            } else {
                j - 1
            };
            if i != p {
                assert(after[i] == head[a]);
            }
            if j != p {
                assert(after[j] == head[b]);
            }
            if i == p {
                assert(before(row, head[b]));
            } else if j == p {
                if a < p - 1 {
                    assert(!before(head[p - 1], head[a]));
                }
            }
        }
    }
}

/// Putting rows in order sorts them, and neither loses nor adds any.
pub proof fn law_in_order<A>(rows: Seq<A>, before: Order<A>)
    requires
        is_order(before),
    ensures
        is_ordered(in_order(rows, before), before),
        in_order(rows, before).to_multiset() == rows.to_multiset(),
        in_order(rows, before).len() == rows.len(),
{
    lemma_first_in_order(rows, before, rows.len());
    assert(rows.take(rows.len() as int) =~= rows);
}

/// The rows in order are the rows.
pub proof fn lemma_in_order_members<A>(rows: Seq<A>, before: Order<A>)
    requires
        is_order(before),
    ensures
        forall|row: A|
            #![trigger in_order(rows, before).contains(row)]
            #![trigger rows.contains(row)]
            in_order(rows, before).contains(row) <==> rows.contains(row),
{
    law_in_order(rows, before);
    let out = in_order(rows, before);
    assert forall|row: A|
        #![trigger out.contains(row)]
        #![trigger rows.contains(row)]
        out.contains(row) <==> rows.contains(row) by {
        vstd::seq_lib::to_multiset_contains(out, row);
        vstd::seq_lib::to_multiset_contains(rows, row);
    }
}

proof fn lemma_ordered_prefix<A>(rows: Seq<A>, before: Order<A>, n: nat)
    requires
        n <= rows.len(),
        is_ordered(rows, before),
    ensures
        first_in_order(rows, before, n) == rows.take(n as int),
    decreases n,
{
    if n == 0 {
        assert(rows.take(0) =~= Seq::empty());
    } else {
        lemma_ordered_prefix(rows, before, (n - 1) as nat);
        if n > 1 {
            assert(!before(rows[n - 1], rows[n - 2]));
        }
        assert(rows.take(n as int) =~= rows.take(n - 1).push(rows[n - 1]));
    }
}

/// Rows that are in order stay as they are.
pub proof fn law_ordered_rows_stay<A>(rows: Seq<A>, before: Order<A>)
    requires
        is_ordered(rows, before),
    ensures
        in_order(rows, before) == rows,
{
    lemma_ordered_prefix(rows, before, rows.len());
    assert(rows.take(rows.len() as int) =~= rows);
}

proof fn lemma_followed_by<A>(rows: Seq<A>, more: Seq<A>, before: Order<A>, n: nat)
    requires
        n <= more.len(),
        is_order(before),
        is_ordered(more, before),
        forall|i: int, j: int|
            0 <= i < rows.len() && 0 <= j < more.len() ==> !before(
                #[trigger] more[j],
                #[trigger] rows[i],
            ),
    ensures
        first_in_order(rows + more, before, rows.len() + n) == in_order(rows, before) + more.take(
            n as int,
        ),
    decreases n,
{
    let all = rows + more;
    if n == 0 {
        lemma_same_prefix(rows, more, before, rows.len());
        assert(in_order(rows, before) + more.take(0) =~= in_order(rows, before));
    } else {
        lemma_followed_by(rows, more, before, (n - 1) as nat);
        let head = in_order(rows, before) + more.take(n - 1);
        let row = more[n - 1];
        assert(all[rows.len() + n - 1] == row);
        if head.len() > 0 {
            if n > 1 {
                assert(head.last() == more[n - 2]);
            } else {
                lemma_in_order_members(rows, before);
                assert(in_order(rows, before).contains(head.last()));
                let i = choose|i: int| 0 <= i < rows.len() && rows[i] == head.last();
                assert(!before(more[0], rows[i]));
            }
        }
        assert(head.push(row) =~= in_order(rows, before) + more.take(n as int));
    }
}

proof fn lemma_same_prefix<A>(rows: Seq<A>, more: Seq<A>, before: Order<A>, n: nat)
    requires
        n <= rows.len(),
    ensures
        first_in_order(rows + more, before, n) == first_in_order(rows, before, n),
    decreases n,
{
    if n > 0 {
        lemma_same_prefix(rows, more, before, (n - 1) as nat);
        assert((rows + more)[n - 1] == rows[n - 1]);
    }
}

/// Rows in order that come before none of the others stand behind them.
pub proof fn law_later_rows_follow<A>(rows: Seq<A>, more: Seq<A>, before: Order<A>)
    requires
        is_order(before),
        is_ordered(more, before),
        forall|i: int, j: int|
            0 <= i < rows.len() && 0 <= j < more.len() ==> !before(
                #[trigger] more[j],
                #[trigger] rows[i],
            ),
    ensures
        in_order(rows + more, before) == in_order(rows, before) + more,
{
    lemma_followed_by(rows, more, before, more.len());
    assert(more.take(more.len() as int) =~= more);
}

proof fn lemma_filter_insert<A>(rows: Seq<A>, p: int, row: A, keep: spec_fn(A) -> bool)
    requires
        0 <= p <= rows.len(),
    ensures
        !keep(row) ==> rows.insert(p, row).filter(keep) == rows.filter(keep),
        keep(row) && (forall|i: int| p <= i < rows.len() ==> !keep(#[trigger] rows[i]))
            ==> rows.insert(p, row).filter(keep) == rows.filter(keep).push(row),
    decreases rows.len(),
{
    reveal(Seq::filter);
    let out = rows.insert(p, row);
    if p == rows.len() {
        assert(out.drop_last() =~= rows);
    } else {
        let head = rows.drop_last();
        lemma_filter_insert(head, p, row, keep);
        assert(out.drop_last() =~= head.insert(p, row));
        assert(out.last() == rows.last());
        if keep(row) && (forall|i: int| p <= i < rows.len() ==> !keep(#[trigger] rows[i])) {
            assert(!keep(rows[rows.len() - 1]));
            assert forall|i: int| p <= i < head.len() implies !keep(#[trigger] head[i]) by {
                assert(!keep(rows[i]));
            }
        }
    }
}

proof fn lemma_equals_stay<A>(rows: Seq<A>, before: Order<A>, n: nat, row: A)
    requires
        n <= rows.len(),
        is_order(before),
    ensures
        ({
            let equal = |other: A| !before(row, other) && !before(other, row);
            first_in_order(rows, before, n).filter(equal) == rows.take(n as int).filter(equal)
        }),
    decreases n,
{
    let equal = |other: A| !before(row, other) && !before(other, row);
    if n == 0 {
        reveal(Seq::filter);
        assert(rows.take(0).filter(equal) =~= Seq::empty());
    } else {
        let m = (n - 1) as nat;
        lemma_equals_stay(rows, before, m, row);
        lemma_first_in_order(rows, before, m);
        let head = first_in_order(rows, before, m);
        let last = rows[n - 1];
        let p = lemma_place(head, last, before);
        if equal(last) {
            assert forall|i: int| p <= i < head.len() implies !equal(#[trigger] head[i]) by {
                assert(before(last, head[i]));
                if equal(head[i]) {
                    assert(!before(head[i], row) && !before(row, last));
                    assert(!before(last, row) && !before(row, head[i]));
                }
            }
        }
        lemma_filter_insert(head, p, last, equal);
        reveal(Seq::filter);
        assert(rows.take(n as int).drop_last() =~= rows.take(n - 1));
        assert(rows.take(n as int).last() == last);
    }
}

/// Putting rows in order is stable: those that are equal in the order keep the
/// order that they had.
pub proof fn law_equal_rows_keep_their_order<A>(rows: Seq<A>, before: Order<A>, row: A)
    requires
        is_order(before),
    ensures
        in_order(rows, before).filter(|other: A| !before(row, other) && !before(other, row))
            == rows.filter(|other: A| !before(row, other) && !before(other, row)),
{
    lemma_equals_stay(rows, before, rows.len(), row);
    assert(rows.take(rows.len() as int) =~= rows);
}

/// Put rows in the order that `mode` asks for.
pub fn put_in_order<M, T: Ranked<M>>(rows: Vec<T>, mode: &M) -> (r: Vec<T>)
    ensures
        views(r@) == in_order(views(rows@), T::order(*mode)),
        r.len() == rows.len(),
{
    let ghost all = rows@;
    let ghost before = T::order(*mode);
    let mut out: Vec<T> = Vec::new();
    proof {
        assert(views(out@) =~= Seq::empty());
    }
    for row in it: rows
        invariant
            it.seq() == all,
            before == T::order(*mode),
            out.len() == it.index(),
            views(out@) == first_in_order(views(all), before, it.index() as nat),
    {
        let mut p: usize = out.len();
        while p > 0 && row.is_before(&out[p - 1], mode)
            invariant
                p <= out.len(),
                before == T::order(*mode),
                forall|k: int| p <= k < out.len() ==> before(row@, #[trigger] views(out@)[k]),
            decreases p,
        {
            p -= 1;
            proof {
                assert(views(out@)[p as int] == out@[p as int]@);
            }
        }
        proof {
            if p > 0 {
                assert(views(out@)[p - 1] == out@[p - 1]@);
            }
            lemma_placed(views(out@), row@, before, p as int);
            assert(views(all)[it.index() as int] == row@);
        }
        let ghost old_out = out@;
        let ghost held = row@;
        out.insert(p, row);
        proof {
            assert(views(out@) =~= views(old_out).insert(p as int, held));
        }
    }
    out
}

/// Rows that are nothing but what they hold.
pub proof fn lemma_own_views<T: View<V = T>>(rows: Seq<T>)
    requires
        forall|row: T| #[trigger] row@ == row,
    ensures
        views(rows) == rows,
{
    assert(views(rows) =~= rows);
}

} // verus!
