//! What a counter flush keeps true.

use crate::db::slot_laws::{demand, lemma_contribution_sign, slots_ok, usage};
use crate::db::task_crud::{charges_ok, contribution, units_for};
use crate::models::{SlotRow, TaskRow};
use crate::store::Tables;
use crate::tally::{lemma_sum_bounds, lemma_sum_minus, lemma_sum_single, lemma_sum_zero};
use crate::workers::batch_updater::Update;
use crate::workers::counter_flush::{
    capacity_held, charged, counted_row, flushed_slots, flushed_tasks, freed, freed_for,
    freed_units, kept_charge, shrunk_row, shrunk_slot, update_ids,
};
use crate::workers::finish_laws::consistent;
use crate::workers::propagation::row_deps_ok;
use crate::workers::transition_laws::{lemma_live_graph, lemma_live_steps, live_step};
use vstd::prelude::*;

verus! {

/// What a shrinking charge frees of a slot is what the task contributed less.
proof fn lemma_freed(r: TaskRow, ids: Seq<u128>, key: Seq<char>)
    requires
        r.capacity_charge is Some ==> r.capacity_charge->0 >= 0,
    ensures
        contribution(shrunk_row(ids)(r), key) == contribution(r, key) - freed_units(ids, key)(r),
        freed_units(ids, key)(r) >= 0,
        shrunk_row(ids)(r).capacity_charge is Some ==> 0 <= shrunk_row(
            ids,
        )(r).capacity_charge->0 <= r.capacity_charge->0,
{
    if charged(ids)(r) && r.slot_keys is Some {
        let keys = r.slot_keys->0;
        let f = units_for(key, Some(kept_charge(r)));
        let g = units_for(key, r.capacity_charge);
        let h = freed_for(key, freed(r));
        assert forall|i: int| 0 <= i < keys.len() implies #[trigger] f(keys[i]) == g(keys[i])
            - h(keys[i]) by {}
        lemma_sum_minus(keys, f, keys, g, h);
        assert forall|i: int| 0 <= i < keys.len() implies #[trigger] h(keys[i]) >= 0 by {}
        lemma_sum_bounds(keys, h);
    }
}

/// Shrinking charges keeps every slot's count equal to what the tasks hold.
pub proof fn shrinking_keeps_slots(tasks: Seq<TaskRow>, slots: Seq<SlotRow>, ids: Seq<u128>)
    requires
        slots_ok(tasks, slots),
        charges_ok(tasks),
    ensures
        slots_ok(
            tasks.map_values(shrunk_row(ids)),
            slots.map_values(shrunk_slot(tasks, ids)),
        ),
        charges_ok(tasks.map_values(shrunk_row(ids))),
{
    let after_tasks = tasks.map_values(shrunk_row(ids));
    let after_slots = slots.map_values(shrunk_slot(tasks, ids));
    assert forall|i: int, j: int|
        #![trigger after_slots[i], after_slots[j]]
        0 <= i < after_slots.len() && 0 <= j < after_slots.len() && after_slots[i].key
            == after_slots[j].key implies i == j by {
        assert(after_slots[i].key == slots[i].key && after_slots[j].key == slots[j].key);
    }
    assert forall|i: int|
        0 <= i < after_tasks.len() && (
        #[trigger] after_tasks[i]).capacity_charge is Some implies after_tasks[i].capacity_charge->0
        >= 0 by {
        assert(after_tasks[i] == shrunk_row(ids)(tasks[i]));
        assert(tasks[i].capacity_charge is Some);
        lemma_freed(tasks[i], ids, Seq::empty());
    }
    assert forall|key: Seq<char>| #[trigger] usage(after_slots, key) == demand(
        after_tasks,
        key,
    ) by {
        let f = |r: TaskRow| contribution(r, key);
        let h = freed_units(ids, key);
        let u = |s: SlotRow|
            if s.key == key {
                s.used
            } else {
                0
            };
        assert forall|i: int| 0 <= i < after_tasks.len() implies #[trigger] f(after_tasks[i]) == f(
            tasks[i],
        ) - h(tasks[i]) by {
            lemma_freed(tasks[i], ids, key);
        }
        lemma_sum_minus(after_tasks, f, tasks, f, h);
        assert(usage(slots, key) == demand(tasks, key));
        assert forall|i: int| 0 <= i < tasks.len() implies #[trigger] h(tasks[i]) >= 0 by {
            lemma_freed(tasks[i], ids, key);
        }
        lemma_sum_bounds(tasks, h);
        assert forall|i: int| 0 <= i < after_tasks.len() implies #[trigger] f(after_tasks[i])
            >= 0 by {
            lemma_contribution_sign(after_tasks[i], key);
        }
        lemma_sum_bounds(after_tasks, f);
        if exists|i: int| 0 <= i < slots.len() && (#[trigger] slots[i]).key == key {
            let w = choose|w: int| 0 <= w < slots.len() && (#[trigger] slots[w]).key == key;
            assert forall|i: int| 0 <= i < slots.len() && i != w implies #[trigger] u(slots[i])
                == 0 by {
                if slots[i].key == key {
                    assert(slots[i].key == slots[w].key);
                }
            }
            lemma_sum_single(slots, u, w);
            assert forall|i: int| 0 <= i < after_slots.len() && i != w implies #[trigger] u(
                after_slots[i],
            ) == 0 by {
                if after_slots[i].key == key {
                    assert(slots[i].key == slots[w].key);
                }
            }
            lemma_sum_single(after_slots, u, w);
            assert(after_slots[w] == shrunk_slot(tasks, ids)(slots[w]));
        } else {
            assert forall|i: int| 0 <= i < slots.len() implies #[trigger] u(slots[i]) == 0 by {}
            lemma_sum_zero(slots, u);
            assert forall|i: int| 0 <= i < after_slots.len() implies #[trigger] u(after_slots[i])
                == 0 by {
                assert(after_slots[i].key == slots[i].key);
            }
            lemma_sum_zero(after_slots, u);
        }
    }
}

/// A flush keeps the tables consistent: the counters of ended tasks stay, and
/// every capacity slot still counts what the tasks hold.
pub proof fn flush_keeps_consistent(s: Tables, updates: Seq<Update>, now: int)
    requires
        consistent(s),
    ensures
        consistent(
            Tables {
                tasks: flushed_tasks(s.tasks, s.slots, updates, now),
                slots: flushed_slots(s.tasks, s.slots, updates, now),
                ..s
            },
        ),
{
    let none = Seq::<u128>::empty();
    let ids = update_ids(updates);
    let t = Tables { tasks: s.tasks.map_values(counted_row(updates, now)), ..s };
    assert forall|i: int| 0 <= i < s.tasks.len() implies live_step(
        #[trigger] s.tasks[i],
        t.tasks[i],
    ) && t.tasks[i].slot_keys == s.tasks[i].slot_keys && t.tasks[i].capacity_charge
        == s.tasks[i].capacity_charge && (s.tasks[i].slot_keys is Some
        ==> t.tasks[i].status.active()) by {
        assert(row_deps_ok(s.tasks, s.links, none, s.tasks[i]));
    }
    lemma_live_steps(s, t);
    if capacity_held(s.tasks, s.slots, ids) {
        let b = Tables {
            tasks: t.tasks.map_values(shrunk_row(ids)),
            slots: t.slots.map_values(shrunk_slot(t.tasks, ids)),
            ..t
        };
        shrinking_keeps_slots(t.tasks, t.slots, ids);
        assert forall|i: int| 0 <= i < t.tasks.len() implies live_step(
            #[trigger] t.tasks[i],
            b.tasks[i],
        ) by {
            assert(row_deps_ok(t.tasks, t.links, none, t.tasks[i]));
        }
        lemma_live_graph(t, b);
        assert forall|i: int|
            0 <= i < b.tasks.len() && (
            #[trigger] b.tasks[i]).slot_keys is Some implies b.tasks[i].status.active() by {
            assert(t.tasks[i].slot_keys is Some);
        }
    }
}

/// A flush never raises a task's charge, and leaves ended tasks their counters.
pub proof fn flush_only_shrinks(
    tasks: Seq<TaskRow>,
    slots: Seq<SlotRow>,
    updates: Seq<Update>,
    now: int,
    i: int,
)
    requires
        charges_ok(tasks),
        0 <= i < tasks.len(),
    ensures
        ({
            let after = flushed_tasks(tasks, slots, updates, now)[i];
            &&& after.capacity_charge is Some <==> tasks[i].capacity_charge is Some
            &&& after.capacity_charge is Some ==> 0 <= after.capacity_charge->0
                <= tasks[i].capacity_charge->0
            &&& tasks[i].status.terminal() ==> after.success == tasks[i].success && after.failures
                == tasks[i].failures
        }),
{
    let ids = update_ids(updates);
    let r = counted_row(updates, now)(tasks[i]);
    assert(tasks[i].capacity_charge is Some ==> tasks[i].capacity_charge->0 >= 0);
    lemma_freed(r, ids, Seq::empty());
}

} // verus!
