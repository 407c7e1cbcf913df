//! Persisting accumulated progress: counters, and the capacity that it frees.

use crate::db::webhook_execution::at_least_zero;
use crate::models::{rows, slot_rows, texts, RuleSlot, SlotRow, Task, TaskRow};
use crate::tally::{count, has_id, lemma_count_take, lemma_count_zero, lemma_sum_take, sum};
use crate::text::{begins_with, has_prefix};
use crate::workers::batch_updater::{
    all_bumped, distinct_updates, entries, requeue, CountMap, Update,
};
use vstd::prelude::*;

verus! {

// ---------------------------------------------------------------------------
// Counters
// ---------------------------------------------------------------------------

/// The counts to add to the task `id`, where there are any.
pub open spec fn update_of(updates: Seq<Update>, id: u128) -> Option<(int, int)>
    decreases updates.len(),
{
    if updates.len() == 0 {
        None
    } else if updates.last().0 == id {
        Some((updates.last().1 as int, updates.last().2 as int))
    } else {
        update_of(updates.drop_last(), id)
    }
}

/// The live tasks that are updated. The counters of an ended task are frozen: its
/// counts are dropped.
pub open spec fn updates_row(updates: Seq<Update>) -> spec_fn(TaskRow) -> bool {
    |r: TaskRow| update_of(updates, r.id) is Some && !r.status.terminal()
}

/// A counter, clamped to what its column holds.
pub open spec fn clamped(x: int) -> int {
    if x > i32::MAX {
        i32::MAX as int
    } else {
        x
    }
}

/// A task with its counts added.
pub open spec fn counted_row(updates: Seq<Update>, now: int) -> spec_fn(TaskRow) -> TaskRow {
    |r: TaskRow|
        if updates_row(updates)(r) {
            let (s, f) = update_of(updates, r.id)->0;
            TaskRow {
                success: clamped(r.success + s),
                failures: clamped(r.failures + f),
                last_updated: now,
                ..r
            }
        } else {
            r
        }
}

/// A sum that can be computed and, once clamped, stored.
pub open spec fn sum_fits(x: int) -> bool {
    i32::MIN <= x <= i64::MAX
}

/// Every sum fits.
pub open spec fn sums_fit(tasks: Seq<TaskRow>, updates: Seq<Update>) -> bool {
    forall|i: int|
        0 <= i < tasks.len() && updates_row(updates)(#[trigger] tasks[i]) ==> sum_fits(
            tasks[i].success + (update_of(updates, tasks[i].id)->0).0,
        ) && sum_fits(tasks[i].failures + (update_of(updates, tasks[i].id)->0).1)
}

/// Finds the counts to add to a task.
fn find_update(updates: &Vec<Update>, id: u128) -> (r: Option<(i64, i64)>)
    ensures
        match r {
            Some(v) => update_of(updates@, id) == Some((v.0 as int, v.1 as int)),
            None => update_of(updates@, id) is None,
        },
{
    let mut n: usize = updates.len();
    assert(updates@.take(n as int) =~= updates@);
    while n > 0
        invariant
            n <= updates@.len(),
            update_of(updates@, id) == update_of(updates@.take(n as int), id),
        decreases n,
    {
        assert(updates@.take(n as int).drop_last() =~= updates@.take(n - 1));
        assert(updates@.take(n as int).last() == updates@[n - 1]);
        if updates[n - 1].0 == id {
            return Some((updates[n - 1].1, updates[n - 1].2));
        }
        n -= 1;
    }
    None
}

/// Whether every sum fits.
fn check_sums(tasks: &Vec<Task>, updates: &Vec<Update>) -> (r: bool)
    ensures
        r == sums_fit(rows(tasks@), updates@),
{
    let ghost rs = rows(tasks@);
    let mut i: usize = 0;
    while i < tasks.len()
        invariant
            i <= tasks.len(),
            rs == rows(tasks@),
            forall|k: int|
                0 <= k < i && updates_row(updates@)(#[trigger] rs[k]) ==> sum_fits(
                    rs[k].success + (update_of(updates@, rs[k].id)->0).0,
                ) && sum_fits(rs[k].failures + (update_of(updates@, rs[k].id)->0).1),
        decreases tasks.len() - i,
    {
        assert(rs[i as int] == tasks@[i as int]@);
        if !tasks[i].status.is_terminal() {
            if let Some((s, f)) = find_update(updates, tasks[i].id) {
                let a: i128 = tasks[i].success as i128 + s as i128;
                let b: i128 = tasks[i].failures as i128 + f as i128;
                if a < i32::MIN as i128 || a > i64::MAX as i128 || b < i32::MIN as i128 || b
                    > i64::MAX as i128 {
                    assert(updates_row(updates@)(rs[i as int]));
                    return false;
                }
            }
        }
        i += 1;
    }
    true
}

/// A counter with a delta, clamped.
fn clamped_sum(c: i32, d: i64) -> (r: i32)
    requires
        sum_fits(c + d),
    ensures
        r == clamped(c + d),
{
    let x: i128 = c as i128 + d as i128;
    if x > i32::MAX as i128 {
        i32::MAX
    } else {
        x as i32
    }
}

/// Adds the counts. Returns how many tasks were updated.
fn add_counts(tasks: &mut Vec<Task>, updates: &Vec<Update>, now: i64) -> (r: usize)
    requires
        sums_fit(rows(old(tasks)@), updates@),
    ensures
        rows(final(tasks)@) == rows(old(tasks)@).map_values(counted_row(updates@, now as int)),
        r == count(rows(old(tasks)@), updates_row(updates@)),
{
    let ghost before = tasks@;
    let ghost rs = rows(before);
    let ghost step = counted_row(updates@, now as int);
    let ghost p = updates_row(updates@);
    let mut n: usize = 0;
    let mut i: usize = 0;
    while i < tasks.len()
        invariant
            i <= tasks.len(),
            tasks@.len() == before.len(),
            rs == rows(before),
            step == counted_row(updates@, now as int),
            p == updates_row(updates@),
            sums_fit(rs, updates@),
            n <= i,
            n == count(rs.take(i as int), p),
            forall|k: int| 0 <= k < i ==> (#[trigger] tasks@[k])@ == step(before[k]@),
            forall|k: int| i <= k < before.len() ==> (#[trigger] tasks@[k]) == before[k],
        decreases tasks.len() - i,
    {
        proof {
            lemma_count_take(rs, p, i as int);
            assert(tasks@[i as int] == before[i as int]);
            assert(rs[i as int] == before[i as int]@);
        }
        if !tasks[i].status.is_terminal() {
            if let Some((s, f)) = find_update(updates, tasks[i].id) {
                assert(p(rs[i as int]));
                let a: i32 = clamped_sum(tasks[i].success, s);
                let b: i32 = clamped_sum(tasks[i].failures, f);
                tasks[i].success = a;
                tasks[i].failures = b;
                tasks[i].last_updated = now;
                n += 1;
            }
        }
        i += 1;
    }
    proof {
        assert(rs.take(i as int) =~= rs);
        assert(rows(tasks@) =~= rs.map_values(step));
    }
    n
}

// ---------------------------------------------------------------------------
// Capacity
// ---------------------------------------------------------------------------

/// The tasks `ids` that still hold capacity.
pub open spec fn charged(ids: Seq<u128>) -> spec_fn(TaskRow) -> bool {
    |r: TaskRow| ids.contains(r.id) && r.capacity_charge is Some && r.capacity_charge->0 > 0
}

/// What a charged task keeps: its charge, or what is left to process where that
/// is less. The charge never grows, not even where more is expected now.
pub open spec fn kept_charge(r: TaskRow) -> int {
    let expected = match r.expected_count {
        Some(e) => e,
        None => 0,
    };
    let left = expected - r.success - r.failures;
    at_least_zero(
        if left < r.capacity_charge->0 {
            left
        } else {
            r.capacity_charge->0
        },
    )
}

/// What a charged task gives back.
pub open spec fn freed(r: TaskRow) -> int {
    r.capacity_charge->0 - kept_charge(r)
}

/// A task after its charge shrank.
pub open spec fn shrunk_row(ids: Seq<u128>) -> spec_fn(TaskRow) -> TaskRow {
    |r: TaskRow|
        if charged(ids)(r) {
            TaskRow { capacity_charge: Some(kept_charge(r)), ..r }
        } else {
            r
        }
}

/// What giving `units` back frees of the slot `key`, per slot key held.
pub open spec fn freed_for(key: Seq<char>, units: int) -> spec_fn(Seq<char>) -> int {
    |k: Seq<char>|
        if k == key && begins_with(k, "cap:"@) {
            units
        } else {
            0
        }
}

/// What a task frees of the slot `key`.
pub open spec fn freed_units(ids: Seq<u128>, key: Seq<char>) -> spec_fn(TaskRow) -> int {
    |r: TaskRow|
        if charged(ids)(r) && r.slot_keys is Some {
            sum(r.slot_keys->0, freed_for(key, freed(r)))
        } else {
            0
        }
}

/// A slot after charges shrank.
pub open spec fn shrunk_slot(tasks: Seq<TaskRow>, ids: Seq<u128>) -> spec_fn(SlotRow) -> SlotRow {
    |s: SlotRow|
        if sum(tasks, freed_units(ids, s.key)) > 0 {
            SlotRow {
                used: at_least_zero(s.used - sum(tasks, freed_units(ids, s.key))),
                ..s
            }
        } else {
            s
        }
}

/// A charged task holds the capacity slot `key`.
pub open spec fn holds_capacity(ids: Seq<u128>, key: Seq<char>) -> spec_fn(TaskRow) -> bool {
    |r: TaskRow|
        charged(ids)(r) && begins_with(key, "cap:"@) && r.slot_keys is Some
            && r.slot_keys->0.contains(key)
}

/// One of the slots is a capacity slot that a charged task holds.
pub open spec fn capacity_held(tasks: Seq<TaskRow>, slots: Seq<SlotRow>, ids: Seq<u128>) -> bool {
    exists|j: int|
        0 <= j < slots.len() && count(
            tasks,
            holds_capacity(ids, (#[trigger] slots[j]).key),
        ) > 0
}

/// The identifiers of the updated tasks.
pub open spec fn update_ids(updates: Seq<Update>) -> Seq<u128> {
    updates.map_values(|u: Update| u.0)
}

/// The tasks and slots after a flush. Capacity is looked at only where a slot of
/// a charged task is there.
pub open spec fn flushed_tasks(
    tasks: Seq<TaskRow>,
    slots: Seq<SlotRow>,
    updates: Seq<Update>,
    now: int,
) -> Seq<TaskRow> {
    let ids = update_ids(updates);
    let t = tasks.map_values(counted_row(updates, now));
    if capacity_held(tasks, slots, ids) {
        t.map_values(shrunk_row(ids))
    } else {
        t
    }
}

/// See [`flushed_tasks`].
pub open spec fn flushed_slots(
    tasks: Seq<TaskRow>,
    slots: Seq<SlotRow>,
    updates: Seq<Update>,
    now: int,
) -> Seq<SlotRow> {
    let ids = update_ids(updates);
    let t = tasks.map_values(counted_row(updates, now));
    if capacity_held(tasks, slots, ids) {
        slots.map_values(shrunk_slot(t, ids))
    } else {
        slots
    }
}

/// Whether the task is one of `ids` that still holds capacity.
fn is_charged(ids: &Vec<u128>, t: &Task) -> (r: bool)
    ensures
        r == charged(ids@)(t@),
{
    match t.capacity_charge {
        Some(c) => c > 0 && has_id(ids, t.id),
        None => false,
    }
}

fn kept(t: &Task) -> (r: i32)
    requires
        t.capacity_charge is Some,
        t.capacity_charge->0 > 0,
    ensures
        r == kept_charge(t@),
        0 <= r <= t.capacity_charge->0,
{
    let c: i32 = match t.capacity_charge {
        Some(c) => c,
        None => 0,
    };
    let expected: i32 = match t.expected_count {
        Some(e) => e,
        None => 0,
    };
    let left: i64 = expected as i64 - t.success as i64 - t.failures as i64;
    if left >= c as i64 {
        c
    } else if left < 0 {
        0
    } else {
        left as i32
    }
}

/// Whether a charged task holds the capacity slot.
fn task_holds_capacity(ids: &Vec<u128>, t: &Task, key: &String) -> (r: bool)
    ensures
        r == holds_capacity(ids@, key@)(t@),
{
    if !is_charged(ids, t) || !has_prefix(key.as_str(), "cap:") {
        return false;
    }
    match &t.claimed_slot_keys {
        Some(keys) => {
            let ghost ks = texts(keys@);
            let mut i: usize = 0;
            while i < keys.len()
                invariant
                    i <= keys.len(),
                    ks == texts(keys@),
                    t@.slot_keys == Some(ks),
                    charged(ids@)(t@),
                    begins_with(key@, "cap:"@),
                    forall|k: int| 0 <= k < i ==> #[trigger] ks[k] != key@,
                decreases keys.len() - i,
            {
                assert(ks[i as int] == keys@[i as int]@);
                if keys[i] == *key {
                    assert(ks.contains(key@));
                    return true;
                }
                i += 1;
            }
            false
        },
        None => false,
    }
}

/// Whether one of the slots is a capacity slot that a charged task holds.
fn is_capacity_held(tasks: &Vec<Task>, slots: &Vec<RuleSlot>, ids: &Vec<u128>) -> (r: bool)
    ensures
        r == capacity_held(rows(tasks@), slot_rows(slots@), ids@),
{
    let ghost rs = rows(tasks@);
    let ghost ss = slot_rows(slots@);
    let mut j: usize = 0;
    while j < slots.len()
        invariant
            j <= slots.len(),
            rs == rows(tasks@),
            ss == slot_rows(slots@),
            forall|k: int|
                0 <= k < j ==> count(rs, holds_capacity(ids@, (#[trigger] ss[k]).key)) == 0,
        decreases slots.len() - j,
    {
        let ghost p = holds_capacity(ids@, ss[j as int].key);
        assert(ss[j as int] == slots@[j as int]@);
        let mut i: usize = 0;
        while i < tasks.len()
            invariant
                i <= tasks.len(),
                j < slots.len(),
                rs == rows(tasks@),
                ss == slot_rows(slots@),
                ss[j as int] == slots@[j as int]@,
                p == holds_capacity(ids@, ss[j as int].key),
                forall|k: int| 0 <= k < i ==> !#[trigger] p(rs[k]),
            decreases tasks.len() - i,
        {
            assert(rs[i as int] == tasks@[i as int]@);
            if task_holds_capacity(ids, &tasks[i], &slots[j].lock_key) {
                proof {
                    assert(p(rs[i as int]));
                    lemma_count_zero(rs, p);
                    assert(count(rs, holds_capacity(ids@, ss[j as int].key)) > 0);
                }
                return true;
            }
            i += 1;
        }
        proof {
            lemma_count_zero(rs, p);
        }
        j += 1;
    }
    false
}

/// More units than any slot counts.
const MANY_UNITS: i128 = 0x1_0000_0000;

/// A sum counted up to [`MANY_UNITS`].
spec fn counted_up_to_many(x: int) -> int {
    if x < MANY_UNITS {
        x
    } else {
        MANY_UNITS as int
    }
}

/// What one task frees of the slot `key`, counted up to [`MANY_UNITS`].
fn task_frees(ids: &Vec<u128>, t: &Task, key: &String) -> (r: i128)
    ensures
        freed_units(ids@, key@)(t@) >= 0,
        r == counted_up_to_many(freed_units(ids@, key@)(t@)),
{
    if !is_charged(ids, t) {
        return 0;
    }
    let c: i32 = match t.capacity_charge {
        Some(c) => c,
        None => 0,
    };
    let units: i128 = c as i128 - kept(t) as i128;
    match &t.claimed_slot_keys {
        Some(keys) => {
            let ghost ks = texts(keys@);
            let ghost f = freed_for(key@, units as int);
            let cap: bool = has_prefix(key.as_str(), "cap:");
            let mut total: i128 = 0;
            let mut i: usize = 0;
            while i < keys.len()
                invariant
                    i <= keys.len(),
                    ks == texts(keys@),
                    f == freed_for(key@, units as int),
                    0 <= units <= i32::MAX,
                    cap == begins_with(key@, "cap:"@),
                    sum(ks.take(i as int), f) >= 0,
                    total == counted_up_to_many(sum(ks.take(i as int), f)),
                decreases keys.len() - i,
            {
                proof {
                    lemma_sum_take(ks, f, i as int);
                    assert(ks[i as int] == keys@[i as int]@);
                }
                if cap && keys[i] == *key {
                    total = total + units;
                    if total > MANY_UNITS {
                        total = MANY_UNITS;
                    }
                }
                i += 1;
            }
            assert(ks.take(i as int) =~= ks);
            total
        },
        None => 0,
    }
}

/// What the tasks free of the slot `key`, counted up to [`MANY_UNITS`].
fn count_freed(tasks: &Vec<Task>, ids: &Vec<u128>, key: &String) -> (r: i128)
    ensures
        sum(rows(tasks@), freed_units(ids@, key@)) >= 0,
        r == counted_up_to_many(sum(rows(tasks@), freed_units(ids@, key@))),
{
    let ghost rs = rows(tasks@);
    let ghost f = freed_units(ids@, key@);
    let mut total: i128 = 0;
    let mut i: usize = 0;
    while i < tasks.len()
        invariant
            i <= tasks.len(),
            rs == rows(tasks@),
            f == freed_units(ids@, key@),
            sum(rs.take(i as int), f) >= 0,
            total == counted_up_to_many(sum(rs.take(i as int), f)),
        decreases tasks.len() - i,
    {
        proof {
            lemma_sum_take(rs, f, i as int);
            assert(rs[i as int] == tasks@[i as int]@);
        }
        let units: i128 = task_frees(ids, &tasks[i], key);
        total = total + units;
        if total > MANY_UNITS {
            total = MANY_UNITS;
        }
        i += 1;
    }
    assert(rs.take(i as int) =~= rs);
    total
}

/// Shrinks the charges of the tasks `ids` to what is left to process, and gives
/// the difference back to their capacity slots.
fn shrink_charges(tasks: &mut Vec<Task>, slots: &mut Vec<RuleSlot>, ids: &Vec<u128>)
    ensures
        rows(final(tasks)@) == rows(old(tasks)@).map_values(shrunk_row(ids@)),
        slot_rows(final(slots)@) == slot_rows(old(slots)@).map_values(
            shrunk_slot(rows(old(tasks)@), ids@),
        ),
{
    let ghost rs = rows(tasks@);
    let ghost before = slots@;
    let ghost ss = slot_rows(before);
    let ghost step = shrunk_slot(rs, ids@);
    let mut j: usize = 0;
    while j < slots.len()
        invariant
            j <= slots.len(),
            slots@.len() == before.len(),
            *tasks == *old(tasks),
            rs == rows(tasks@),
            ss == slot_rows(before),
            step == shrunk_slot(rs, ids@),
            forall|k: int| 0 <= k < j ==> (#[trigger] slots@[k])@ == step(ss[k]),
            forall|k: int| j <= k < before.len() ==> (#[trigger] slots@[k]) == before[k],
        decreases slots.len() - j,
    {
        assert(slots@[j as int] == before[j as int]);
        assert(ss[j as int] == before[j as int]@);
        let total: i128 = count_freed(tasks, ids, &slots[j].lock_key);
        if total > 0 {
            let left: i128 = slots[j].used as i128 - total;
            slots[j].used = if left < 0 {
                0
            } else {
                left as i32
            };
        }
        assert(slots@[j as int]@ == step(ss[j as int]));
        j += 1;
    }
    assert(slot_rows(slots@) =~= ss.map_values(step));
    let ghost held = tasks@;
    let ghost shrink = shrunk_row(ids@);
    let mut i: usize = 0;
    while i < tasks.len()
        invariant
            i <= tasks.len(),
            tasks@.len() == held.len(),
            shrink == shrunk_row(ids@),
            forall|k: int| 0 <= k < i ==> (#[trigger] tasks@[k])@ == shrink(held[k]@),
            forall|k: int| i <= k < held.len() ==> (#[trigger] tasks@[k]) == held[k],
        decreases tasks.len() - i,
    {
        assert(tasks@[i as int] == held[i as int]);
        if is_charged(ids, &tasks[i]) {
            let c: i32 = kept(&tasks[i]);
            tasks[i].capacity_charge = Some(c);
        }
        i += 1;
    }
    assert(rows(tasks@) =~= rows(held).map_values(shrink));
}

// ---------------------------------------------------------------------------
// Flushing
// ---------------------------------------------------------------------------

/// A counter left the range of its column.
#[derive(Clone, Copy, Debug, PartialEq, Eq, Structural)]
pub struct OutOfRange;

/// Applies counter updates for several tasks at once, and frees the capacity that
/// the reported progress frees. Returns how many tasks were updated: ended and
/// missing tasks are passed over, their counts are dropped.
///
/// Counters stop at the largest value of their column. Where a sum cannot be
/// stored at all nothing changes.
pub fn handle_batch_with_counts(
    tasks: &mut Vec<Task>,
    slots: &mut Vec<RuleSlot>,
    updates: &Vec<Update>,
    now: i64,
) -> (r: Result<usize, OutOfRange>)
    requires
        distinct_updates(updates@),
    ensures
        ({
            let ts = rows(old(tasks)@);
            let ss = slot_rows(old(slots)@);
            match r {
                Ok(n) => {
                    &&& sums_fit(ts, updates@)
                    &&& n == count(ts, updates_row(updates@))
                    &&& rows(final(tasks)@) == flushed_tasks(ts, ss, updates@, now as int)
                    &&& slot_rows(final(slots)@) == flushed_slots(ts, ss, updates@, now as int)
                },
                Err(_) => {
                    &&& !sums_fit(ts, updates@)
                    &&& final(tasks)@ == old(tasks)@
                    &&& final(slots)@ == old(slots)@
                },
            }
        }),
{
    if !check_sums(tasks, updates) {
        return Err(OutOfRange);
    }
    let mut ids: Vec<u128> = Vec::new();
    let mut i: usize = 0;
    while i < updates.len()
        invariant
            i <= updates.len(),
            ids@ =~= update_ids(updates@).take(i as int),
        decreases updates.len() - i,
    {
        ids.push(updates[i].0);
        i += 1;
    }
    assert(ids@ =~= update_ids(updates@));
    let capacity: bool = is_capacity_held(tasks, slots, &ids);
    let n: usize = add_counts(tasks, updates, now);
    if capacity {
        shrink_charges(tasks, slots, &ids);
    }
    Ok(n)
}

/// Applies counter updates given as 32-bit deltas.
pub fn run_counter_flush_once(
    tasks: &mut Vec<Task>,
    slots: &mut Vec<RuleSlot>,
    updates: &Vec<(u128, i32, i32)>,
    now: i64,
) -> (r: Result<(), OutOfRange>)
    requires
        distinct_updates(widened(updates@)),
    ensures
        ({
            let ts = rows(old(tasks)@);
            let ss = slot_rows(old(slots)@);
            let us = widened(updates@);
            match r {
                Ok(_) => {
                    &&& sums_fit(ts, us)
                    &&& rows(final(tasks)@) == flushed_tasks(ts, ss, us, now as int)
                    &&& slot_rows(final(slots)@) == flushed_slots(ts, ss, us, now as int)
                },
                Err(_) => {
                    &&& !sums_fit(ts, us)
                    &&& final(tasks)@ == old(tasks)@
                    &&& final(slots)@ == old(slots)@
                },
            }
        }),
{
    let mut us: Vec<Update> = Vec::new();
    let mut i: usize = 0;
    while i < updates.len()
        invariant
            i <= updates.len(),
            us@ =~= widened(updates@).take(i as int),
        decreases updates.len() - i,
    {
        us.push((updates[i].0, updates[i].1 as i64, updates[i].2 as i64));
        i += 1;
    }
    assert(us@ =~= widened(updates@));
    match handle_batch_with_counts(tasks, slots, &us, now) {
        Ok(_) => Ok(()),
        Err(e) => Err(e),
    }
}

/// Updates as 64-bit deltas.
pub open spec fn widened(updates: Seq<(u128, i32, i32)>) -> Seq<Update> {
    updates.map_values(|u: (u128, i32, i32)| (u.0, u.1 as i64, u.2 as i64))
}

/// The updates that failed.
pub open spec fn failed_updates(updates: Seq<Update>, applied: Seq<bool>) -> Seq<Update>
    decreases updates.len(),
{
    if updates.len() == 0 {
        Seq::empty()
    } else {
        let before = failed_updates(updates.drop_last(), applied);
        if applied[updates.len() - 1] {
            before
        } else {
            before.push(updates.last())
        }
    }
}

/// After a failed flush every update is applied on its own; `applied` says which
/// of them went through. Each one that did not is kept for a later retry, whatever
/// came of the others: none of the reported progress is lost. Returns how many
/// were kept.
pub fn recover_per_row(data: &mut CountMap, updates: &Vec<Update>, applied: &Vec<bool>) -> (r:
    usize)
    requires
        applied@.len() == updates@.len(),
    ensures
        entries(*final(data)) == all_bumped(
            entries(*old(data)),
            failed_updates(updates@, applied@),
        ),
        r == failed_updates(updates@, applied@).len(),
{
    let mut failed: Vec<Update> = Vec::new();
    let mut i: usize = 0;
    assert(updates@.take(0) =~= Seq::empty());
    while i < updates.len()
        invariant
            i <= updates.len(),
            applied@.len() == updates@.len(),
            failed@ == failed_updates(updates@.take(i as int), applied@),
        decreases updates.len() - i,
    {
        assert(updates@.take(i + 1).drop_last() =~= updates@.take(i as int));
        if !applied[i] {
            failed.push(updates[i]);
        }
        i += 1;
    }
    assert(updates@.take(i as int) =~= updates@);
    requeue(data, &failed);
    failed.len()
}

} // verus!
