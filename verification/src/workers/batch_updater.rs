//! Accumulating progress counters in memory and flushing them to the tasks.

use dashmap::DashMap;
use std::hash::RandomState;
use vstd::prelude::*;

verus! {

/// Progress reported for a task.
#[derive(Clone, Copy, Debug, PartialEq, Eq, Structural)]
pub struct UpdateEvent {
    /// Successes since the last report.
    pub success: i32,
    /// Failures since the last report.
    pub failures: i32,
    /// The task.
    pub task_id: u128,
}

/// A pending delta for one task: the task, its successes and its failures.
pub type Update = (u128, i64, i64);

/// The accumulated successes and failures of each task.
pub type CountMap = DashMap<u128, (i64, i64), RandomState>;

/// The map of `dashmap`, which Verus sees nothing inside of.
#[verifier::external_type_specification]
#[verifier::external_body]
#[verifier::reject_recursive_types(K)]
#[verifier::reject_recursive_types(V)]
#[verifier::reject_recursive_types(S)]
pub struct ExDashMap<K, V, S>(DashMap<K, V, S>);

/// The entries of a `dashmap::DashMap`.
pub uninterp spec fn entries(m: DashMap<u128, (i64, i64), RandomState>) -> Map<u128, (i64, i64)>;

/// `dashmap::DashMap::new`: a map without entries.
#[verifier::external_body]
fn empty_map() -> (r: CountMap)
    ensures
        forall|key: u128| !(#[trigger] entries(r).dom().contains(key)),
{
    DashMap::new()
}

/// `dashmap::DashMap::get`: the value of the entry at `key`, where there is one.
#[verifier::external_body]
fn lookup(m: &CountMap, key: u128) -> (r: Option<(i64, i64)>)
    ensures
        r == if entries(*m).dom().contains(key) {
            Some(entries(*m)[key])
        } else {
            None
        },
{
    m.get(&key).map(|e| *e.value())
}

/// `dashmap::DashMap::insert`: the entry at `key` becomes `value`, the others stay.
#[verifier::external_body]
fn put(m: &mut CountMap, key: u128, value: (i64, i64))
    ensures
        entries(*final(m)) == entries(*old(m)).insert(key, value),
{
    m.insert(key, value);
}

/// `dashmap::DashMap::iter`: every entry once, in an order that is left open.
#[verifier::external_body]
fn snapshot(m: &CountMap) -> (r: Vec<Update>)
    ensures
        forall|i: int|
            0 <= i < r@.len() ==> entries(*m).dom().contains((#[trigger] r@[i]).0) && entries(
                *m,
            )[r@[i].0] == (r@[i].1, r@[i].2),
        forall|i: int, j: int|
            0 <= i < j < r@.len() ==> (#[trigger] r@[i]).0 != (#[trigger] r@[j]).0,
        forall|key: u128| #[trigger]
            entries(*m).dom().contains(key) ==> exists|i: int|
                0 <= i < r@.len() && (#[trigger] r@[i]).0 == key,
{
    m.iter().map(|e| (*e.key(), e.value().0, e.value().1)).collect()
}

/// `dashmap::DashMap::retain` with [`counts_something`]: exactly the entries that
/// it accepts stay, as they are.
#[verifier::external_body]
fn keep_counting(m: &mut CountMap)
    ensures
        forall|key: u128| #[trigger]
            entries(*final(m)).dom().contains(key) <==> entries(*old(m)).dom().contains(key)
                && nonzero(entries(*old(m))[key]),
        forall|key: u128|
            entries(*final(m)).dom().contains(key) ==> #[trigger] entries(*final(m))[key]
                == entries(*old(m))[key],
{
    m.retain(|_, v| counts_something(*v));
}

/// `dashmap::DashMap::len`: the number of entries.
#[verifier::external_body]
fn size(m: &CountMap) -> (r: usize)
    ensures
        r == entries(*m).dom().len(),
{
    m.len()
}

// ---------------------------------------------------------------------------
// Accumulating
// ---------------------------------------------------------------------------

/// Some count is not zero.
pub open spec fn nonzero(v: (i64, i64)) -> bool {
    v.0 != 0 || v.1 != 0
}

/// Executable form of [`nonzero`].
pub fn counts_something(v: (i64, i64)) -> (r: bool)
    ensures
        r == nonzero(v),
{
    v.0 != 0 || v.1 != 0
}

/// The counts of a task.
pub open spec fn counts_of(m: Map<u128, (i64, i64)>, id: u128) -> (i64, i64) {
    if m.dom().contains(id) {
        m[id]
    } else {
        (0i64, 0i64)
    }
}

/// The map with counts added to a task. Sums wrap around as 64-bit integers do.
pub open spec fn bumped(m: Map<u128, (i64, i64)>, u: Update) -> Map<u128, (i64, i64)> {
    m.insert(
        u.0,
        (
            counts_of(m, u.0).0.wrapping_add(u.1),
            counts_of(m, u.0).1.wrapping_add(u.2),
        ),
    )
}

/// The map with several updates added.
pub open spec fn all_bumped(m: Map<u128, (i64, i64)>, updates: Seq<Update>) -> Map<
    u128,
    (i64, i64),
>
    decreases updates.len(),
{
    if updates.len() == 0 {
        m
    } else {
        bumped(all_bumped(m, updates.drop_last()), updates.last())
    }
}

/// A map without counts.
pub fn new_counts() -> (r: CountMap)
    ensures
        entries(r) == Map::<u128, (i64, i64)>::empty(),
{
    let r: CountMap = empty_map();
    assert(entries(r) =~= Map::empty());
    r
}

/// Adds counts to a task.
fn bump(data: &mut CountMap, u: Update)
    ensures
        entries(*final(data)) == bumped(entries(*old(data)), u),
{
    let (s, f): (i64, i64) = match lookup(data, u.0) {
        Some(v) => v,
        None => (0, 0),
    };
    put(data, u.0, (s.wrapping_add(u.1), f.wrapping_add(u.2)));
}

/// Accumulates one incoming event.
pub fn apply_event(data: &mut CountMap, evt: &UpdateEvent)
    ensures
        entries(*final(data)) == bumped(
            entries(*old(data)),
            (evt.task_id, evt.success as i64, evt.failures as i64),
        ),
{
    bump(data, (evt.task_id, evt.success as i64, evt.failures as i64));
}

/// Adds counts back for a later retry.
pub fn requeue(data: &mut CountMap, updates: &Vec<Update>)
    ensures
        entries(*final(data)) == all_bumped(entries(*old(data)), updates@),
{
    let ghost m = entries(*data);
    let mut i: usize = 0;
    assert(updates@.take(0) =~= Seq::empty());
    while i < updates.len()
        invariant
            i <= updates.len(),
            entries(*data) == all_bumped(m, updates@.take(i as int)),
        decreases updates.len() - i,
    {
        assert(updates@.take(i + 1).drop_last() =~= updates@.take(i as int));
        bump(data, updates[i]);
        i += 1;
    }
    assert(updates@.take(i as int) =~= updates@);
}

/// `m` with every count at zero.
pub open spec fn zeroed(m: Map<u128, (i64, i64)>) -> Map<u128, (i64, i64)> {
    m.map_values(|v: (i64, i64)| (0i64, 0i64))
}

/// `updates` lists the counts of `m` that are not zero, each once.
pub open spec fn lists_counts(m: Map<u128, (i64, i64)>, updates: Seq<Update>) -> bool {
    &&& forall|i: int|
        0 <= i < updates.len() ==> m.dom().contains((#[trigger] updates[i]).0) && m[updates[i].0]
            == (updates[i].1, updates[i].2) && nonzero(m[updates[i].0])
    &&& distinct_updates(updates)
    &&& forall|key: u128| #[trigger]
        m.dom().contains(key) && nonzero(m[key]) ==> exists|i: int|
            0 <= i < updates.len() && (#[trigger] updates[i]).0 == key
}

/// No task is updated twice.
pub open spec fn distinct_updates(updates: Seq<Update>) -> bool {
    forall|i: int, j: int|
        0 <= i < j < updates.len() ==> (#[trigger] updates[i]).0 != (#[trigger] updates[j]).0
}

/// Takes the accumulated counts out: all of them are zero afterwards, and those
/// that were not are returned.
pub fn drain_updates(data: &mut CountMap) -> (r: Vec<Update>)
    ensures
        entries(*final(data)) == zeroed(entries(*old(data))),
        lists_counts(entries(*old(data)), r@),
{
    let ghost m = entries(*data);
    let all: Vec<Update> = snapshot(data);
    let mut r: Vec<Update> = Vec::new();
    let ghost mut from: Seq<int> = Seq::empty();
    let mut i: usize = 0;
    while i < all.len()
        invariant
            i <= all.len(),
            forall|k: int|
                0 <= k < all@.len() ==> m.dom().contains((#[trigger] all@[k]).0) && m[all@[k].0]
                    == (all@[k].1, all@[k].2),
            forall|k: int, j: int|
                0 <= k < j < all@.len() ==> (#[trigger] all@[k]).0 != (#[trigger] all@[j]).0,
            entries(*data).dom() =~= m.dom(),
            forall|k: int|
                0 <= k < i ==> entries(*data)[(#[trigger] all@[k]).0] == (0i64, 0i64),
            from.len() == r@.len(),
            forall|k: int|
                0 <= k < r@.len() ==> 0 <= (#[trigger] from[k]) < i && r@[k] == all@[from[k]]
                    && nonzero(m[r@[k].0]),
            forall|k: int, j: int| 0 <= k < j < r@.len() ==> #[trigger] from[k] < #[trigger] from[j],
            forall|k: int|
                0 <= k < i && nonzero(m[(#[trigger] all@[k]).0]) ==> exists|j: int|
                    0 <= j < r@.len() && (#[trigger] r@[j]).0 == all@[k].0,
        decreases all.len() - i,
    {
        let u: Update = all[i];
        let ghost before = r@;
        put(data, u.0, (0, 0));
        assert(m[all@[i as int].0] == (u.1, u.2));
        if counts_something((u.1, u.2)) {
            r.push(u);
            proof {
                from = from.push(i as int);
                assert(r@[before.len() as int].0 == u.0);
            }
        }
        proof {
            assert forall|k: int|
                0 <= k < i + 1 && nonzero(m[(#[trigger] all@[k]).0]) implies exists|j: int|
                0 <= j < r@.len() && (#[trigger] r@[j]).0 == all@[k].0 by {
                if k < i {
                    let j = choose|j: int|
                        0 <= j < before.len() && (#[trigger] before[j]).0 == all@[k].0;
                    assert(r@[j].0 == all@[k].0);
                }
            }
        }
        i += 1;
    }
    proof {
        assert(entries(*data) =~= zeroed(m)) by {
            assert forall|key: u128| m.dom().contains(key) implies #[trigger] entries(*data)[key]
                == (0i64, 0i64) by {
                let k = choose|k: int| 0 <= k < all@.len() && (#[trigger] all@[k]).0 == key;
                assert(entries(*data)[all@[k].0] == (0i64, 0i64));
            }
        }
        assert forall|k: int, j: int| 0 <= k < j < r@.len() implies (#[trigger] r@[k]).0 != (
        #[trigger] r@[j]).0 by {
            assert(from[k] < from[j]);
            assert(all@[from[k]].0 != all@[from[j]].0);
        }
        assert forall|k: int| 0 <= k < r@.len() implies m.dom().contains((#[trigger] r@[k]).0)
            && m[r@[k].0] == (r@[k].1, r@[k].2) && nonzero(m[r@[k].0]) by {
            assert(0 <= from[k]);
            assert(m.dom().contains(all@[from[k]].0));
        }
        assert forall|key: u128| #[trigger]
            m.dom().contains(key) && nonzero(m[key]) implies exists|j: int|
            0 <= j < r@.len() && (#[trigger] r@[j]).0 == key by {
            let k = choose|k: int| 0 <= k < all@.len() && (#[trigger] all@[k]).0 == key;
            assert(nonzero(m[all@[k].0]));
        }
    }
    r
}

/// Forgets the tasks without counts. Returns how many tasks are left.
pub fn prune(data: &mut CountMap) -> (r: usize)
    ensures
        forall|key: u128| #[trigger]
            entries(*final(data)).dom().contains(key) <==> entries(*old(data)).dom().contains(key)
                && nonzero(entries(*old(data))[key]),
        forall|key: u128|
            entries(*final(data)).dom().contains(key) ==> #[trigger] entries(*final(data))[key]
                == entries(*old(data))[key],
        r == entries(*final(data)).dom().len(),
{
    keep_counting(data);
    size(data)
}

proof fn lemma_add_zero(x: i64)
    ensures
        0i64.wrapping_add(x) == x,
{
}

/// Taking the counts out and adding them back restores them: nothing is lost
/// where a flush fails.
pub proof fn requeue_undoes_drain(m: Map<u128, (i64, i64)>, updates: Seq<Update>)
    requires
        lists_counts(m, updates),
    ensures
        all_bumped(zeroed(m), updates) =~= m,
{
    lemma_added_back(m, updates, updates.len() as int);
    let after = all_bumped(zeroed(m), updates);
    assert(updates.take(updates.len() as int) =~= updates);
    assert forall|key: u128| m.dom().contains(key) implies #[trigger] after[key] == m[key] by {
        if nonzero(m[key]) {
            let i = choose|i: int| 0 <= i < updates.len() && (#[trigger] updates[i]).0 == key;
            assert(after[updates[i].0] == m[updates[i].0]);
        } else if exists|i: int| 0 <= i < updates.len() && (#[trigger] updates[i]).0 == key {
            let i = choose|i: int| 0 <= i < updates.len() && (#[trigger] updates[i]).0 == key;
            assert(nonzero(m[updates[i].0]));
        } else {
            assert(after[key] == (0i64, 0i64));
        }
    }
}

proof fn lemma_added_back(m: Map<u128, (i64, i64)>, updates: Seq<Update>, n: int)
    requires
        lists_counts(m, updates),
        0 <= n <= updates.len(),
    ensures
        ({
            let after = all_bumped(zeroed(m), updates.take(n));
            &&& after.dom() =~= m.dom()
            &&& forall|i: int|
                0 <= i < n ==> after[(#[trigger] updates[i]).0] == m[updates[i].0]
            &&& forall|key: u128|
                m.dom().contains(key) && (forall|i: int|
                    0 <= i < n ==> (#[trigger] updates[i]).0 != key) ==> #[trigger] after[key] == (
                    0i64,
                    0i64,
                )
        }),
    decreases n,
{
    if n > 0 {
        let part = updates.take(n);
        let u = updates[n - 1];
        let before = all_bumped(zeroed(m), updates.take(n - 1));
        let after = all_bumped(zeroed(m), part);
        lemma_added_back(m, updates, n - 1);
        assert(part.drop_last() =~= updates.take(n - 1));
        assert(m.dom().contains(updates[n - 1].0));
        assert(before[u.0] == (0i64, 0i64)) by {
            assert forall|i: int| 0 <= i < n - 1 implies (#[trigger] updates[i]).0 != u.0 by {
                assert(updates[i].0 != updates[n - 1].0);
            }
        }
        lemma_add_zero(u.1);
        lemma_add_zero(u.2);
        assert(after[u.0] == m[u.0]);
        assert forall|i: int| 0 <= i < n implies after[(#[trigger] updates[i]).0]
            == m[updates[i].0] by {
            if i < n - 1 {
                assert(updates[i].0 != updates[n - 1].0);
            }
        }
        assert forall|key: u128|
            m.dom().contains(key) && (forall|i: int|
                0 <= i < n ==> (#[trigger] updates[i]).0 != key) implies #[trigger] after[key] == (
            0i64,
            0i64,
        ) by {
            assert(updates[n - 1].0 != key);
            assert(before[key] == (0i64, 0i64));
        }
    } else {
        assert(updates.take(0) =~= Seq::empty());
    }
}

} // verus!
