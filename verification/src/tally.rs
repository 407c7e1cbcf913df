//! Counting and selecting the elements of a sequence.

use crate::models::TaskRow;
use vstd::prelude::*;

verus! {

/// The number of elements of `s` that satisfy `p`.
pub open spec fn count<A>(s: Seq<A>, p: spec_fn(A) -> bool) -> nat
    decreases s.len(),
{
    if s.len() == 0 {
        0
    } else {
        count(s.drop_last(), p) + if p(s.last()) {
            1nat
        } else {
            0nat
        }
    }
}

/// The sum of `f` over the elements of `s`.
pub open spec fn sum<A>(s: Seq<A>, f: spec_fn(A) -> int) -> int
    decreases s.len(),
{
    if s.len() == 0 {
        0
    } else {
        sum(s.drop_last(), f) + f(s.last())
    }
}

/// The identifiers of the rows that satisfy `p`, in row order.
pub open spec fn ids_where(rows: Seq<TaskRow>, p: spec_fn(TaskRow) -> bool) -> Seq<u128> {
    rows.filter(p).map_values(|r: TaskRow| r.id)
}

pub proof fn lemma_count_take<A>(s: Seq<A>, p: spec_fn(A) -> bool, i: int)
    requires
        0 <= i < s.len(),
    ensures
        count(s.take(i + 1), p) == count(s.take(i), p) + if p(s[i]) {
            1nat
        } else {
            0nat
        },
{
    assert(s.take(i + 1).drop_last() =~= s.take(i));
}

pub proof fn lemma_sum_take<A>(s: Seq<A>, f: spec_fn(A) -> int, i: int)
    requires
        0 <= i < s.len(),
    ensures
        sum(s.take(i + 1), f) == sum(s.take(i), f) + f(s[i]),
{
    assert(s.take(i + 1).drop_last() =~= s.take(i));
}

pub proof fn lemma_count_len<A>(s: Seq<A>, p: spec_fn(A) -> bool)
    ensures
        count(s, p) <= s.len(),
    decreases s.len(),
{
    if s.len() > 0 {
        lemma_count_len(s.drop_last(), p);
    }
}

/// A concatenation counts what its parts count together.
pub proof fn lemma_count_concat<A>(s: Seq<A>, t: Seq<A>, p: spec_fn(A) -> bool)
    ensures
        count(s + t, p) == count(s, p) + count(t, p),
    decreases t.len(),
{
    if t.len() == 0 {
        assert(s + t =~= s);
    } else {
        assert((s + t).drop_last() =~= s + t.drop_last());
        lemma_count_concat(s, t.drop_last(), p);
    }
}

/// Two sequences whose elements agree position by position count the same.
pub proof fn lemma_count_same<A, B>(
    s: Seq<A>,
    p: spec_fn(A) -> bool,
    t: Seq<B>,
    q: spec_fn(B) -> bool,
)
    requires
        s.len() == t.len(),
        forall|i: int| 0 <= i < s.len() ==> #[trigger] p(s[i]) == q(t[i]),
    ensures
        count(s, p) == count(t, q),
    decreases s.len(),
{
    if s.len() > 0 {
        assert forall|i: int| 0 <= i < s.drop_last().len() implies #[trigger] p(s.drop_last()[i])
            == q(t.drop_last()[i]) by {
            assert(p(s[i]) == q(t[i]));
        }
        lemma_count_same(s.drop_last(), p, t.drop_last(), q);
        assert(p(s[s.len() - 1]) == q(t[t.len() - 1]));
    }
}

/// A predicate that is the disjoint union of two others counts their sum.
pub proof fn lemma_count_split<A>(
    s: Seq<A>,
    p: spec_fn(A) -> bool,
    q: spec_fn(A) -> bool,
    r: spec_fn(A) -> bool,
)
    requires
        forall|i: int|
            0 <= i < s.len() ==> (#[trigger] p(s[i]) == (q(s[i]) || r(s[i]))) && !(q(s[i]) && r(
                s[i],
            )),
    ensures
        count(s, p) == count(s, q) + count(s, r),
    decreases s.len(),
{
    if s.len() > 0 {
        assert forall|i: int| 0 <= i < s.drop_last().len() implies (#[trigger] p(s.drop_last()[i])
            == (q(s.drop_last()[i]) || r(s.drop_last()[i]))) && !(q(s.drop_last()[i]) && r(
            s.drop_last()[i],
        )) by {
            assert(p(s[i]) == (q(s[i]) || r(s[i])));
        }
        lemma_count_split(s.drop_last(), p, q, r);
        assert(p(s[s.len() - 1]) == (q(s[s.len() - 1]) || r(s[s.len() - 1])));
    }
}

/// A stronger predicate counts no more, and strictly less where it drops one.
pub proof fn lemma_count_less<A, B>(
    s: Seq<A>,
    p: spec_fn(A) -> bool,
    t: Seq<B>,
    q: spec_fn(B) -> bool,
)
    requires
        s.len() == t.len(),
        forall|i: int| 0 <= i < s.len() ==> (#[trigger] p(s[i]) ==> q(t[i])),
    ensures
        count(s, p) <= count(t, q),
        (exists|i: int| 0 <= i < s.len() && !#[trigger] p(s[i]) && q(t[i])) ==> count(s, p) < count(
            t,
            q,
        ),
    decreases s.len(),
{
    if s.len() > 0 {
        let n = s.len() - 1;
        assert forall|i: int| 0 <= i < s.drop_last().len() implies (#[trigger] p(s.drop_last()[i])
            ==> q(t.drop_last()[i])) by {
            assert(p(s[i]) ==> q(t[i]));
        }
        lemma_count_less(s.drop_last(), p, t.drop_last(), q);
        assert(p(s[n]) ==> q(t[n]));
        if exists|i: int| 0 <= i < s.len() && !#[trigger] p(s[i]) && q(t[i]) {
            let i = choose|i: int| 0 <= i < s.len() && !#[trigger] p(s[i]) && q(t[i]);
            if i < n {
                assert(!p(s.drop_last()[i]) && q(t.drop_last()[i]));
            }
        }
    }
}

/// Nothing is counted exactly where nothing satisfies the predicate.
pub proof fn lemma_count_zero<A>(s: Seq<A>, p: spec_fn(A) -> bool)
    ensures
        count(s, p) == 0 <==> (forall|i: int| 0 <= i < s.len() ==> !#[trigger] p(s[i])),
    decreases s.len(),
{
    if s.len() > 0 {
        let n = s.len() - 1;
        lemma_count_zero(s.drop_last(), p);
        if count(s, p) == 0 {
            assert forall|i: int| 0 <= i < s.len() implies !#[trigger] p(s[i]) by {
                if i < n {
                    assert(s.drop_last()[i] == s[i]);
                }
            }
        }
        if forall|i: int| 0 <= i < s.len() ==> !#[trigger] p(s[i]) {
            assert(!p(s[n]));
            assert forall|i: int| 0 <= i < s.drop_last().len() implies !#[trigger] p(
                s.drop_last()[i],
            ) by {
                assert(!p(s[i]));
            }
        }
    }
}

/// Counting within a selection counts both predicates at once.
pub proof fn lemma_count_filter<A>(s: Seq<A>, p: spec_fn(A) -> bool, q: spec_fn(A) -> bool)
    ensures
        count(s.filter(p), q) == count(s, |a: A| p(a) && q(a)),
    decreases s.len(),
{
    reveal(Seq::filter);
    if s.len() > 0 {
        lemma_count_filter(s.drop_last(), p, q);
        let sub = s.drop_last().filter(p);
        if p(s.last()) {
            assert(sub.push(s.last()).drop_last() =~= sub);
        }
    }
}

pub proof fn lemma_filter_take<A>(s: Seq<A>, p: spec_fn(A) -> bool, i: int)
    requires
        0 <= i < s.len(),
    ensures
        s.take(i + 1).filter(p) == if p(s[i]) {
            s.take(i).filter(p).push(s[i])
        } else {
            s.take(i).filter(p)
        },
{
    reveal(Seq::filter);
    assert(s.take(i + 1).drop_last() =~= s.take(i));
}

/// An element is selected exactly when it is there and satisfies the predicate.
pub proof fn lemma_filter_has<A>(s: Seq<A>, p: spec_fn(A) -> bool, a: A)
    ensures
        s.filter(p).contains(a) <==> s.contains(a) && p(a),
    decreases s.len(),
{
    reveal(Seq::filter);
    if s.len() > 0 {
        lemma_filter_has(s.drop_last(), p, a);
        let n = s.len() - 1;
        let sub = s.drop_last().filter(p);
        assert(s.contains(a) <==> s.drop_last().contains(a) || s[n] == a) by {
            if s.contains(a) {
                let k = choose|k: int| 0 <= k < s.len() && s[k] == a;
                if k < n {
                    assert(s.drop_last()[k] == a);
                }
            }
            if s.drop_last().contains(a) {
                let k = choose|k: int| 0 <= k < s.drop_last().len() && s.drop_last()[k] == a;
                assert(s[k] == a);
            }
        }
        if p(s.last()) {
            let full = sub.push(s.last());
            assert(full.contains(a) <==> sub.contains(a) || s.last() == a) by {
                if sub.contains(a) {
                    let k = choose|k: int| 0 <= k < sub.len() && sub[k] == a;
                    assert(full[k] == a);
                }
                assert(full[sub.len() as int] == s.last());
                if full.contains(a) {
                    let k = choose|k: int| 0 <= k < full.len() && full[k] == a;
                    if k < sub.len() {
                        assert(sub[k] == a);
                    }
                }
            }
        }
    }
}

/// As many elements are selected as satisfy the predicate.
pub proof fn lemma_filter_count<A>(s: Seq<A>, p: spec_fn(A) -> bool, q: spec_fn(A) -> bool)
    requires
        forall|a: A| #[trigger] p(a) == q(a),
    ensures
        s.filter(p).len() == count(s, q),
    decreases s.len(),
{
    reveal(Seq::filter);
    if s.len() > 0 {
        lemma_filter_count(s.drop_last(), p, q);
        assert(p(s.last()) == q(s.last()));
    }
}

/// Predicates that say the same count the same.
pub proof fn lemma_count_like<A>(s: Seq<A>, p: spec_fn(A) -> bool, q: spec_fn(A) -> bool)
    requires
        forall|a: A| #[trigger] p(a) == q(a),
    ensures
        count(s, p) == count(s, q),
    decreases s.len(),
{
    if s.len() > 0 {
        lemma_count_like(s.drop_last(), p, q);
        assert(p(s.last()) == q(s.last()));
    }
}

pub proof fn lemma_ids_where_take(rows: Seq<TaskRow>, p: spec_fn(TaskRow) -> bool, i: int)
    requires
        0 <= i < rows.len(),
    ensures
        ids_where(rows.take(i + 1), p) == if p(rows[i]) {
            ids_where(rows.take(i), p).push(rows[i].id)
        } else {
            ids_where(rows.take(i), p)
        },
{
    lemma_filter_take(rows, p, i);
    if p(rows[i]) {
        assert(ids_where(rows.take(i + 1), p) =~= ids_where(rows.take(i), p).push(rows[i].id));
    }
}

pub proof fn lemma_ids_where_none(rows: Seq<TaskRow>, p: spec_fn(TaskRow) -> bool)
    ensures
        ids_where(rows.take(0), p) == Seq::<u128>::empty(),
{
    reveal(Seq::filter);
    assert(ids_where(rows.take(0), p) =~= Seq::empty());
}

/// As many identifiers are selected as rows are counted.
pub proof fn lemma_ids_where_len(rows: Seq<TaskRow>, p: spec_fn(TaskRow) -> bool)
    ensures
        ids_where(rows, p).len() == count(rows, p),
    decreases rows.len(),
{
    reveal(Seq::filter);
    if rows.len() > 0 {
        lemma_ids_where_len(rows.drop_last(), p);
    }
}

/// An identifier is selected exactly when one of the selected rows carries it.
pub proof fn lemma_ids_where_has(rows: Seq<TaskRow>, p: spec_fn(TaskRow) -> bool, id: u128)
    ensures
        ids_where(rows, p).contains(id) <==> exists|i: int|
            0 <= i < rows.len() && #[trigger] rows[i].id == id && p(rows[i]),
{
    let sel = rows.filter(p);
    let ids = ids_where(rows, p);
    if ids.contains(id) {
        let k = choose|k: int| 0 <= k < ids.len() && ids[k] == id;
        assert(sel[k].id == id);
        assert(sel.contains(sel[k]));
        lemma_filter_has(rows, p, sel[k]);
        let i = choose|i: int| 0 <= i < rows.len() && rows[i] == sel[k];
        assert(rows[i].id == id && p(rows[i]));
    }
    if exists|i: int| 0 <= i < rows.len() && #[trigger] rows[i].id == id && p(rows[i]) {
        let i = choose|i: int| 0 <= i < rows.len() && #[trigger] rows[i].id == id && p(rows[i]);
        assert(rows.contains(rows[i]));
        lemma_filter_has(rows, p, rows[i]);
        let k = choose|k: int| 0 <= k < sel.len() && sel[k] == rows[i];
        assert(ids[k] == id);
    }
}

/// Whether `ids` holds `x`.
pub fn has_id(ids: &Vec<u128>, x: u128) -> (r: bool)
    ensures
        r == ids@.contains(x),
{
    let mut i: usize = 0;
    while i < ids.len()
        invariant
            i <= ids.len(),
            forall|k: int| 0 <= k < i ==> ids@[k] != x,
        decreases ids.len() - i,
    {
        if ids[i] == x {
            assert(ids@[i as int] == x);
            return true;
        }
        i += 1;
    }
    false
}

/// Sums that agree position by position are the same.
pub proof fn lemma_sum_same<A, B>(
    s: Seq<A>,
    f: spec_fn(A) -> int,
    t: Seq<B>,
    g: spec_fn(B) -> int,
)
    requires
        s.len() == t.len(),
        forall|i: int| 0 <= i < s.len() ==> #[trigger] f(s[i]) == g(t[i]),
    ensures
        sum(s, f) == sum(t, g),
    decreases s.len(),
{
    if s.len() > 0 {
        assert forall|i: int| 0 <= i < s.drop_last().len() implies #[trigger] f(s.drop_last()[i])
            == g(t.drop_last()[i]) by {
            assert(f(s[i]) == g(t[i]));
        }
        lemma_sum_same(s.drop_last(), f, t.drop_last(), g);
        assert(f(s[s.len() - 1]) == g(t[t.len() - 1]));
    }
}

/// A sum of differences is the difference of the sums.
pub proof fn lemma_sum_minus<A, B>(
    s: Seq<A>,
    f: spec_fn(A) -> int,
    t: Seq<B>,
    g: spec_fn(B) -> int,
    h: spec_fn(B) -> int,
)
    requires
        s.len() == t.len(),
        forall|i: int| 0 <= i < s.len() ==> #[trigger] f(s[i]) == g(t[i]) - h(t[i]),
    ensures
        sum(s, f) == sum(t, g) - sum(t, h),
    decreases s.len(),
{
    if s.len() > 0 {
        assert forall|i: int| 0 <= i < s.drop_last().len() implies #[trigger] f(s.drop_last()[i])
            == g(t.drop_last()[i]) - h(t.drop_last()[i]) by {
            assert(f(s[i]) == g(t[i]) - h(t[i]));
        }
        lemma_sum_minus(s.drop_last(), f, t.drop_last(), g, h);
        assert(f(s[s.len() - 1]) == g(t[t.len() - 1]) - h(t[t.len() - 1]));
    }
}

/// A sum of terms that are not negative is not negative, and at least as large
/// as each of them.
pub proof fn lemma_sum_bounds<A>(s: Seq<A>, f: spec_fn(A) -> int)
    requires
        forall|i: int| 0 <= i < s.len() ==> #[trigger] f(s[i]) >= 0,
    ensures
        sum(s, f) >= 0,
        forall|i: int| 0 <= i < s.len() ==> #[trigger] f(s[i]) <= sum(s, f),
    decreases s.len(),
{
    if s.len() > 0 {
        assert forall|i: int| 0 <= i < s.drop_last().len() implies #[trigger] f(s.drop_last()[i])
            >= 0 by {
            assert(f(s[i]) >= 0);
        }
        lemma_sum_bounds(s.drop_last(), f);
        assert(f(s[s.len() - 1]) >= 0);
        assert forall|i: int| 0 <= i < s.len() implies #[trigger] f(s[i]) <= sum(s, f) by {
            if i < s.len() - 1 {
                assert(f(s.drop_last()[i]) <= sum(s.drop_last(), f));
            }
        }
    }
}

/// A sum of zeros is zero.
pub proof fn lemma_sum_zero<A>(s: Seq<A>, f: spec_fn(A) -> int)
    requires
        forall|i: int| 0 <= i < s.len() ==> #[trigger] f(s[i]) == 0,
    ensures
        sum(s, f) == 0,
    decreases s.len(),
{
    if s.len() > 0 {
        assert forall|i: int| 0 <= i < s.drop_last().len() implies #[trigger] f(s.drop_last()[i])
            == 0 by {
            assert(f(s[i]) == 0);
        }
        lemma_sum_zero(s.drop_last(), f);
        assert(f(s[s.len() - 1]) == 0);
    }
}

/// A sum with a single term that is not zero is that term.
pub proof fn lemma_sum_single<A>(s: Seq<A>, f: spec_fn(A) -> int, k: int)
    requires
        0 <= k < s.len(),
        forall|i: int| 0 <= i < s.len() && i != k ==> #[trigger] f(s[i]) == 0,
    ensures
        sum(s, f) == f(s[k]),
    decreases s.len(),
{
    let n = s.len() - 1;
    let init = s.drop_last();
    assert forall|i: int| 0 <= i < init.len() && i != k implies #[trigger] f(init[i]) == 0 by {
        assert(f(s[i]) == 0);
    }
    if k == n {
        lemma_sum_zero(init, f);
    } else {
        lemma_sum_single(init, f, k);
        assert(f(s[n]) == 0);
    }
}

} // verus!
