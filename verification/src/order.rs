//! Ordering rows by integer keys, as `ORDER BY` does.

use crate::tally::{count, lemma_count_len, lemma_count_take};
use vstd::prelude::*;

verus! {

/// A sort key, compared component by component. A descending component is given
/// by its complement.
pub type SortKey = (i128, i128, u128);

/// `a` sorts no later than `b`.
pub open spec fn key_le(a: SortKey, b: SortKey) -> bool {
    a.0 < b.0 || (a.0 == b.0 && (a.1 < b.1 || (a.1 == b.1 && a.2 <= b.2)))
}

/// The positions of `keys` in ascending order of their keys; equal keys keep
/// their relative order. See [`order_sorts`].
pub open spec fn order(keys: Seq<SortKey>) -> Seq<int>
    decreases keys.len(),
{
    if keys.len() == 0 {
        Seq::empty()
    } else {
        let n = keys.len() - 1;
        let before = order(keys.drop_last());
        before.insert(count(before, |k: int| key_le(keys[k], keys[n])) as int, n)
    }
}

/// The rows of `s` at `positions`.
pub open spec fn pick<A>(s: Seq<A>, positions: Seq<int>) -> Seq<A> {
    positions.map_values(|k: int| s[k])
}

/// The first `n` elements, or all where there are fewer.
pub open spec fn first_n<A>(s: Seq<A>, n: int) -> Seq<A> {
    if n <= s.len() {
        s.take(n)
    } else {
        s
    }
}

/// [`order`] lists every position exactly once, in ascending order of the keys,
/// and keeps the relative order of equal keys.
pub proof fn order_sorts(keys: Seq<SortKey>)
    ensures
        order(keys).len() == keys.len(),
        forall|i: int| 0 <= i < keys.len() ==> 0 <= #[trigger] order(keys)[i] < keys.len(),
        forall|i: int, j: int|
            0 <= i < j < keys.len() ==> key_le(
                keys[#[trigger] order(keys)[i]],
                keys[#[trigger] order(keys)[j]],
            ),
        forall|i: int, j: int|
            0 <= i < j < keys.len() ==> (#[trigger] order(keys)[i] != #[trigger] order(keys)[j]
                && (keys[order(keys)[i]] == keys[order(keys)[j]] ==> order(keys)[i] < order(
                keys,
            )[j])),
        forall|k: int| 0 <= k < keys.len() ==> order(keys).contains(k),
    decreases keys.len(),
{
    if keys.len() > 0 {
        let n = keys.len() - 1;
        let init = keys.drop_last();
        let b = order(init);
        order_sorts(init);
        let p = |k: int| key_le(keys[k], keys[n]);
        let pos = count(b, p) as int;
        lemma_count_len(b, p);
        assert forall|i: int| 0 <= i < n implies #[trigger] keys[b[i]] == init[b[i]] by {}
        lemma_count_prefix(b, p);
        let o = order(keys);
        assert(o == b.insert(pos, n));
        assert forall|i: int, j: int| 0 <= i < j < keys.len() implies key_le(
            keys[#[trigger] o[i]],
            keys[#[trigger] o[j]],
        ) && o[i] != o[j] && (keys[o[i]] == keys[o[j]] ==> o[i] < o[j]) by {
            let x = if i < pos {
                i
            } else {
                i - 1
            };
            let y = if j < pos {
                j
            } else {
                j - 1
            };
            if i != pos && j != pos {
                assert(o[i] == b[x] && o[j] == b[y]);
                assert(keys[b[x]] == init[b[x]] && keys[b[y]] == init[b[y]]);
            } else if i == pos {
                assert(o[i] == n && o[j] == b[y]);
                assert(!p(b[y]));
            } else {
                assert(o[j] == n && o[i] == b[x]);
                assert(p(b[x]));
            }
        }
        assert forall|k: int| 0 <= k < keys.len() implies o.contains(k) by {
            if k == n {
                assert(o[pos] == n);
            } else {
                assert(b.contains(k));
                let w = choose|w: int| 0 <= w < b.len() && b[w] == k;
                if w < pos {
                    assert(o[w] == k);
                } else {
                    assert(o[w + 1] == k);
                }
            }
        }
    }
}

/// In a sequence whose satisfying elements come first, they are the first ones.
proof fn lemma_count_prefix(s: Seq<int>, p: spec_fn(int) -> bool)
    requires
        forall|i: int, j: int| 0 <= i < j < s.len() && p(#[trigger] s[j]) ==> p(#[trigger] s[i]),
    ensures
        forall|i: int| 0 <= i < s.len() ==> (p(#[trigger] s[i]) <==> i < count(s, p)),
    decreases s.len(),
{
    if s.len() > 0 {
        let init = s.drop_last();
        assert forall|i: int, j: int| 0 <= i < j < init.len() && p(#[trigger] init[j]) implies p(
            #[trigger] init[i],
        ) by {
            assert(s[i] == init[i] && s[j] == init[j]);
        }
        lemma_count_prefix(init, p);
        let n = s.len() - 1;
        if p(s[n]) {
            assert forall|i: int| 0 <= i < init.len() implies p(init[i]) by {
                assert(p(s[i]));
            }
            if init.len() > 0 {
                assert(p(init[init.len() - 1]));
            }
            lemma_count_len(init, p);
        }
        assert forall|i: int| 0 <= i < s.len() implies (p(#[trigger] s[i]) <==> i < count(s, p)) by {
            if i < n {
                assert(init[i] == s[i]);
            }
            lemma_count_len(init, p);
        }
    }
}

/// Whether `a` sorts no later than `b`.
fn le_key(a: &SortKey, b: &SortKey) -> (r: bool)
    ensures
        r == key_le(*a, *b),
{
    a.0 < b.0 || (a.0 == b.0 && (a.1 < b.1 || (a.1 == b.1 && a.2 <= b.2)))
}

/// The positions of `keys` in ascending order of their keys.
pub fn sort_positions(keys: &Vec<SortKey>) -> (r: Vec<usize>)
    ensures
        r@.map_values(|k: usize| k as int) == order(keys@),
        r@.len() == keys@.len(),
        forall|i: int| 0 <= i < r@.len() ==> #[trigger] r@[i] < keys@.len(),
{
    let mut r: Vec<usize> = Vec::new();
    let mut n: usize = 0;
    let ghost up = |k: usize| k as int;
    while n < keys.len()
        invariant
            n <= keys.len(),
            up == (|k: usize| k as int),
            r@.map_values(up) =~= order(keys@.take(n as int)),
            r@.len() == n,
            forall|i: int| 0 <= i < r@.len() ==> #[trigger] r@[i] < n,
        decreases keys.len() - n,
    {
        let ghost part = keys@.take(n + 1);
        let ghost b = r@.map_values(up);
        let ghost p = |k: int| key_le(part[k], part[n as int]);
        let mut pos: usize = 0;
        let mut i: usize = 0;
        while i < r.len()
            invariant
                i <= r.len(),
                r@.len() == n,
                n < keys.len(),
                part == keys@.take(n + 1),
                up == (|k: usize| k as int),
                b == r@.map_values(up),
                p == (|k: int| key_le(part[k], part[n as int])),
                forall|i: int| 0 <= i < r@.len() ==> #[trigger] r@[i] < n,
                pos == count(b.take(i as int), p),
                pos <= i,
            decreases r.len() - i,
        {
            proof {
                lemma_count_take(b, p, i as int);
                assert(b[i as int] == r@[i as int]);
            }
            if le_key(&keys[r[i]], &keys[n]) {
                pos += 1;
            }
            i += 1;
        }
        proof {
            assert(b.take(i as int) =~= b);
            assert(part.drop_last() =~= keys@.take(n as int));
            assert(r@.insert(pos as int, n).map_values(up) =~= b.insert(pos as int, n as int));
        }
        r.insert(pos, n);
        n += 1;
    }
    assert(keys@.take(n as int) =~= keys@);
    r
}

} // verus!
