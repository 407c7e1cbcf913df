//! What claiming and releasing keep true of the slots.

use crate::db::task_crud::{
    admits, all_taken, ask_ok, blocked_at, charge, charges_ok, claim_outcome_with,
    claim_with_slots_row, contribution, has_capacity, holds_key, released_row, released_slot,
    released_units, rule_key, slots_of, taken, unique_slots, units_for, ClaimResult, SlotAsk,
};
use crate::models::{SlotRow, StatusKind, StrategyView, TaskRow};
use crate::rule::{keyed, lemma_key_prefixes, KeyedView};
use crate::tally::{
    count, lemma_count_zero, lemma_sum_bounds, lemma_sum_minus, lemma_sum_same, lemma_sum_single,
    lemma_sum_zero, sum,
};
use crate::text::{begins_with, lemma_not_before_itself, text_before};
use crate::workers::propagation::unique_ids;
use vstd::prelude::*;

verus! {

/// The units of the slot `key` in use, as the slots count them.
pub open spec fn usage(slots: Seq<SlotRow>, key: Seq<char>) -> int {
    sum(
        slots,
        |s: SlotRow|
            if s.key == key {
                s.used
            } else {
                0
            },
    )
}

/// The units of the slot `key` that the tasks hold.
pub open spec fn demand(tasks: Seq<TaskRow>, key: Seq<char>) -> int {
    sum(tasks, |r: TaskRow| contribution(r, key))
}

/// Every slot counts exactly the units that the tasks hold.
pub open spec fn slots_ok(tasks: Seq<TaskRow>, slots: Seq<SlotRow>) -> bool {
    &&& unique_slots(slots)
    &&& forall|key: Seq<char>| #[trigger] usage(slots, key) == demand(tasks, key)
}

/// Only claimed and running tasks hold slots.
pub open spec fn holders_active(tasks: Seq<TaskRow>) -> bool {
    forall|i: int|
        0 <= i < tasks.len() && (#[trigger] tasks[i]).slot_keys is Some ==> tasks[i].status.active()
}

/// Capacity rules have `cap:` keys, and concurrency rules have others.
pub open spec fn rule_keys_ok(rules: Seq<KeyedView>) -> bool {
    forall|i: int|
        0 <= i < rules.len() && rule_key(#[trigger] rules[i]) is Some ==> (begins_with(
            rule_key(rules[i])->0,
            "cap:"@,
        ) <==> rules[i] is Capacity)
}

/// The keys that metadata give rules are of that form.
pub proof fn lemma_rule_keys(t: TaskRow)
    ensures
        rule_keys_ok(keyed(t)),
{
    reveal(keyed);
    assert forall|i: int| 0 <= i < keyed(t).len() && rule_key(#[trigger] keyed(t)[i]) is Some implies (
    begins_with(rule_key(keyed(t)[i])->0, "cap:"@) <==> keyed(t)[i] is Capacity) by {
        match t.rules[i] {
            StrategyView::Concurency { matcher, .. } => {
                lemma_key_prefixes(false, matcher, t.metadata);
            },
            StrategyView::Capacity { matcher, .. } => {
                lemma_key_prefixes(true, matcher, t.metadata);
            },
        }
    }
}

/// Taking one slot's units adds them to its use, and leaves the others alone.
proof fn lemma_usage_taken(slots: Seq<SlotRow>, a: SlotAsk, key: Seq<char>)
    requires
        unique_slots(slots),
    ensures
        unique_slots(taken(slots, a)),
        usage(taken(slots, a), key) == usage(slots, key) + if key == a.key {
            a.increment
        } else {
            0
        },
{
    let after = taken(slots, a);
    let f = |s: SlotRow|
        if s.key == key {
            s.used
        } else {
            0
        };
    if exists|i: int| 0 <= i < slots.len() && (#[trigger] slots[i]).key == a.key {
        let w = choose|w: int| 0 <= w < slots.len() && (#[trigger] slots[w]).key == a.key;
        assert forall|i: int, j: int|
            #![trigger after[i], after[j]]
            0 <= i < after.len() && 0 <= j < after.len() && after[i].key == after[j].key implies i
            == j by {
            assert(after[i].key == slots[i].key && after[j].key == slots[j].key);
        }
        if key == a.key {
            assert forall|i: int| 0 <= i < slots.len() && i != w implies #[trigger] f(slots[i])
                == 0 by {
                if slots[i].key == key {
                    assert(slots[i].key == slots[w].key);
                }
            }
            lemma_sum_single(slots, f, w);
            assert forall|i: int| 0 <= i < after.len() && i != w implies #[trigger] f(after[i])
                == 0 by {
                if after[i].key == key {
                    assert(slots[i].key == slots[w].key);
                }
            }
            lemma_sum_single(after, f, w);
        } else {
            assert forall|i: int| 0 <= i < after.len() implies #[trigger] f(after[i]) == f(
                slots[i],
            ) by {}
            lemma_sum_same(after, f, slots, f);
        }
    } else {
        assert(after.drop_last() =~= slots);
    }
}

/// Taking the units of distinct slots adds each one's units to its use.
pub proof fn lemma_usage_all_taken(slots: Seq<SlotRow>, wanted: Seq<SlotAsk>, key: Seq<char>)
    requires
        unique_slots(slots),
    ensures
        unique_slots(all_taken(slots, wanted)),
        usage(all_taken(slots, wanted), key) == usage(slots, key) + sum(
            wanted,
            |a: SlotAsk|
                if a.key == key {
                    a.increment
                } else {
                    0
                },
        ),
    decreases wanted.len(),
{
    if wanted.len() > 0 {
        lemma_usage_all_taken(slots, wanted.drop_last(), key);
        lemma_usage_taken(all_taken(slots, wanted.drop_last()), wanted.last(), key);
    }
}

/// What a task that was just claimed contributes to a slot is what its claim
/// took from it.
proof fn lemma_claim_contribution(
    rules: Seq<KeyedView>,
    units: int,
    wanted: Seq<SlotAsk>,
    r: TaskRow,
    key: Seq<char>,
)
    requires
        slots_of(rules, units, wanted),
        rule_keys_ok(rules),
        r.slot_keys == Some(wanted.map_values(|a: SlotAsk| a.key)),
        r.capacity_charge == if has_capacity(rules) {
            Some(units)
        } else {
            None
        },
    ensures
        contribution(r, key) == sum(
            wanted,
            |a: SlotAsk|
                if a.key == key {
                    a.increment
                } else {
                    0
                },
        ),
{
    let keys = wanted.map_values(|a: SlotAsk| a.key);
    let f = units_for(key, r.capacity_charge);
    let g = |a: SlotAsk|
        if a.key == key {
            a.increment
        } else {
            0
        };
    assert forall|i: int| 0 <= i < keys.len() implies #[trigger] f(keys[i]) == g(wanted[i]) by {
        let a = wanted[i];
        assert(ask_ok(rules, units, wanted[i]));
        let w = choose|w: int|
            0 <= w < rules.len() && rule_key(#[trigger] rules[w]) == Some(a.key)
                && crate::db::task_crud::rule_limit(rules[w]) == a.threshold;
        if !a.concurrency {
            let v = choose|v: int|
                0 <= v < rules.len() && rule_key(#[trigger] rules[v]) == Some(a.key)
                    && rules[v] is Capacity;
            assert(has_capacity(rules));
            assert(begins_with(a.key, "cap:"@));
        } else {
            assert(!(rules[w] is Capacity));
            assert(!begins_with(a.key, "cap:"@));
        }
    }
    lemma_sum_same(keys, f, wanted, g);
}

/// A claim keeps every slot's count equal to what the tasks hold.
pub proof fn claim_keeps_slots(
    tasks: Seq<TaskRow>,
    slots: Seq<SlotRow>,
    t: TaskRow,
    wanted: Seq<SlotAsk>,
    now: int,
    after_tasks: Seq<TaskRow>,
    after_slots: Seq<SlotRow>,
    result: ClaimResult,
    blocked: Option<(Seq<char>, int)>,
)
    requires
        unique_ids(tasks),
        holders_active(tasks),
        slots_ok(tasks, slots),
        slots_of(keyed(t), charge(t), wanted),
        claim_outcome_with(
            tasks,
            slots,
            t,
            wanted,
            now,
            after_tasks,
            after_slots,
            result,
            blocked,
        ),
    ensures
        slots_ok(after_tasks, after_slots),
        holders_active(after_tasks),
{
    lemma_rule_keys(t);
    if result == ClaimResult::Claimed {
        let keys = wanted.map_values(|a: SlotAsk| a.key);
        let units = if has_capacity(keyed(t)) {
            Some(charge(t))
        } else {
            None
        };
        let step = claim_with_slots_row(t.id, keys, units, now);
        let w = choose|w: int|
            0 <= w < tasks.len() && #[trigger] tasks[w].id == t.id && tasks[w].status
                == StatusKind::Pending;
        assert forall|key: Seq<char>| #[trigger] usage(after_slots, key) == demand(
            after_tasks,
            key,
        ) by {
            lemma_usage_all_taken(slots, wanted, key);
            lemma_claim_contribution(keyed(t), charge(t), wanted, after_tasks[w], key);
            let f = |r: TaskRow| contribution(r, key);
            let h = |r: TaskRow| f(r) - f(step(r));
            assert forall|i: int| 0 <= i < after_tasks.len() implies #[trigger] f(after_tasks[i])
                == f(tasks[i]) - h(tasks[i]) by {}
            lemma_sum_minus(after_tasks, f, tasks, f, h);
            assert forall|i: int| 0 <= i < tasks.len() && i != w implies #[trigger] h(tasks[i])
                == 0 by {
                if tasks[i].id == t.id {
                    assert(tasks[i].id == tasks[w].id);
                }
            }
            lemma_sum_single(tasks, h, w);
            assert(tasks[w].slot_keys is None);
            assert(usage(slots, key) == demand(tasks, key));
        }
        lemma_usage_all_taken(slots, wanted, Seq::empty());
        assert forall|i: int|
            0 <= i < after_tasks.len() && (
            #[trigger] after_tasks[i]).slot_keys is Some implies after_tasks[i].status.active() by {
            assert(after_tasks[i] == step(tasks[i]));
        }
    }
}

/// An admitted claim found its concurrency slots below their limits, and leaves
/// each of them that existed, or has a positive limit, within it.
pub proof fn claim_respects_limits(
    tasks: Seq<TaskRow>,
    slots: Seq<SlotRow>,
    t: TaskRow,
    wanted: Seq<SlotAsk>,
    now: int,
    after_tasks: Seq<TaskRow>,
    after_slots: Seq<SlotRow>,
    blocked: Option<(Seq<char>, int)>,
    k: int,
)
    requires
        unique_slots(slots),
        slots_of(keyed(t), charge(t), wanted),
        claim_outcome_with(
            tasks,
            slots,
            t,
            wanted,
            now,
            after_tasks,
            after_slots,
            ClaimResult::Claimed,
            blocked,
        ),
        0 <= k < wanted.len(),
        wanted[k].threshold > 0,
    ensures
        usage(slots, wanted[k].key) < wanted[k].threshold,
        wanted[k].concurrency ==> usage(after_slots, wanted[k].key) <= wanted[k].threshold,
{
    let a = wanted[k];
    let f = |s: SlotRow|
        if s.key == a.key {
            s.used
        } else {
            0
        };
    assert(admits(slots, a)) by {
        lemma_none_blocked(slots, wanted, wanted.len() as int);
    }
    if exists|i: int| 0 <= i < slots.len() && (#[trigger] slots[i]).key == a.key {
        let w = choose|w: int| 0 <= w < slots.len() && (#[trigger] slots[w]).key == a.key;
        assert forall|i: int| 0 <= i < slots.len() && i != w implies #[trigger] f(slots[i])
            == 0 by {
            if slots[i].key == a.key {
                assert(slots[i].key == slots[w].key);
            }
        }
        lemma_sum_single(slots, f, w);
    } else {
        assert forall|i: int| 0 <= i < slots.len() implies #[trigger] f(slots[i]) == 0 by {}
        lemma_sum_zero(slots, f);
    }
    lemma_usage_all_taken(slots, wanted, a.key);
    let g = |b: SlotAsk|
        if b.key == a.key {
            b.increment
        } else {
            0
        };
    assert forall|i: int| 0 <= i < wanted.len() && i != k implies #[trigger] g(wanted[i]) == 0 by {
        if wanted[i].key == a.key {
            lemma_not_before_itself(a.key);
            if i < k {
                assert(text_before(wanted[i].key, wanted[k].key));
            } else {
                assert(text_before(wanted[k].key, wanted[i].key));
            }
        }
    }
    lemma_sum_single(wanted, g, k);
    assert(ask_ok(keyed(t), charge(t), wanted[k]));
}

/// Where no slot blocks a claim, every slot admits it.
pub proof fn lemma_none_blocked(slots: Seq<SlotRow>, wanted: Seq<SlotAsk>, n: int)
    requires
        !exists|k: int| blocked_at(slots, wanted, k),
        0 <= n <= wanted.len(),
    ensures
        forall|j: int| 0 <= j < n ==> admits(slots, #[trigger] wanted[j]),
    decreases n,
{
    if n > 0 {
        lemma_none_blocked(slots, wanted, n - 1);
        if !admits(slots, wanted[n - 1]) {
            assert(blocked_at(slots, wanted, n - 1));
        }
    }
}

/// What a task contributes is not negative.
pub proof fn lemma_contribution_sign(r: TaskRow, key: Seq<char>)
    requires
        r.capacity_charge is Some ==> r.capacity_charge->0 >= 0,
    ensures
        contribution(r, key) >= 0,
        contribution(r, key) > 0 ==> r.slot_keys is Some && r.slot_keys->0.contains(key),
{
    if r.slot_keys is Some {
        let keys = r.slot_keys->0;
        let f = units_for(key, r.capacity_charge);
        assert forall|i: int| 0 <= i < keys.len() implies #[trigger] f(keys[i]) >= 0 by {}
        lemma_sum_bounds(keys, f);
        if !keys.contains(key) {
            assert forall|i: int| 0 <= i < keys.len() implies #[trigger] f(keys[i]) == 0 by {
                assert(keys.contains(keys[i]));
            }
            lemma_sum_zero(keys, f);
        }
    }
}

/// Releasing keeps every slot's count equal to what the tasks hold, and a
/// released task holds nothing.
pub proof fn release_keeps_slots(tasks: Seq<TaskRow>, slots: Seq<SlotRow>, ids: Seq<u128>)
    requires
        slots_ok(tasks, slots),
        charges_ok(tasks),
    ensures
        slots_ok(
            tasks.map_values(released_row(ids)),
            slots.map_values(released_slot(tasks, ids)),
        ),
        charges_ok(tasks.map_values(released_row(ids))),
        forall|i: int|
            0 <= i < tasks.len() && ids.contains((#[trigger] tasks[i]).id) ==> released_row(ids)(
                tasks[i],
            ).slot_keys is None,
{
    let after_tasks = tasks.map_values(released_row(ids));
    let after_slots = slots.map_values(released_slot(tasks, ids));
    assert forall|i: int, j: int|
        #![trigger after_slots[i], after_slots[j]]
        0 <= i < after_slots.len() && 0 <= j < after_slots.len() && after_slots[i].key
            == after_slots[j].key implies i == j by {
        assert(after_slots[i].key == slots[i].key && after_slots[j].key == slots[j].key);
    }
    assert forall|i: int|
        0 <= i < after_tasks.len() && (
        #[trigger] after_tasks[i]).capacity_charge is Some implies after_tasks[i].capacity_charge->0
        >= 0 by {
        assert(after_tasks[i] == released_row(ids)(tasks[i]));
        assert(tasks[i].capacity_charge is Some);
    }
    assert forall|key: Seq<char>| #[trigger] usage(after_slots, key) == demand(
        after_tasks,
        key,
    ) by {
        let f = |r: TaskRow| contribution(r, key);
        let h = released_units(ids, key);
        let p = holds_key(ids, key);
        let u = |s: SlotRow|
            if s.key == key {
                s.used
            } else {
                0
            };
        assert forall|i: int| 0 <= i < after_tasks.len() implies #[trigger] f(after_tasks[i]) == f(
            tasks[i],
        ) - h(tasks[i]) by {}
        lemma_sum_minus(after_tasks, f, tasks, f, h);
        assert(usage(slots, key) == demand(tasks, key));
        assert forall|i: int| 0 <= i < tasks.len() implies #[trigger] f(tasks[i]) >= 0 by {
            lemma_contribution_sign(tasks[i], key);
        }
        assert forall|i: int| 0 <= i < after_tasks.len() implies #[trigger] f(after_tasks[i])
            >= 0 by {
            lemma_contribution_sign(after_tasks[i], key);
        }
        lemma_sum_bounds(tasks, f);
        lemma_sum_bounds(after_tasks, f);
        if exists|i: int| 0 <= i < slots.len() && (#[trigger] slots[i]).key == key {
            let w = choose|w: int| 0 <= w < slots.len() && (#[trigger] slots[w]).key == key;
            assert forall|i: int| 0 <= i < slots.len() && i != w implies #[trigger] u(slots[i])
                == 0 by {
                if slots[i].key == key {
                    assert(slots[i].key == slots[w].key);
                }
            }
            lemma_sum_single(slots, u, w);
            assert forall|i: int| 0 <= i < after_slots.len() && i != w implies #[trigger] u(
                after_slots[i],
            ) == 0 by {
                if after_slots[i].key == key {
                    assert(slots[i].key == slots[w].key);
                }
            }
            lemma_sum_single(after_slots, u, w);
            if count(tasks, p) == 0 {
                lemma_count_zero(tasks, p);
                assert forall|i: int| 0 <= i < tasks.len() implies #[trigger] h(tasks[i]) == 0 by {
                    lemma_contribution_sign(tasks[i], key);
                    assert(!p(tasks[i]));
                }
                lemma_sum_zero(tasks, h);
            }
        } else {
            assert forall|i: int| 0 <= i < slots.len() implies #[trigger] u(slots[i]) == 0 by {}
            lemma_sum_zero(slots, u);
            assert forall|i: int| 0 <= i < after_slots.len() implies #[trigger] u(after_slots[i])
                == 0 by {
                assert(after_slots[i].key == slots[i].key);
            }
            lemma_sum_zero(after_slots, u);
            assert forall|i: int| 0 <= i < tasks.len() implies #[trigger] h(tasks[i]) == 0 by {
                assert(f(tasks[i]) <= sum(tasks, f));
            }
            lemma_sum_zero(tasks, h);
        }
    }
}

/// Releasing a task that was just claimed gives every slot back exactly the
/// units that the claim took.
pub proof fn release_undoes_claim(
    tasks: Seq<TaskRow>,
    slots: Seq<SlotRow>,
    t: TaskRow,
    wanted: Seq<SlotAsk>,
    now: int,
    after_tasks: Seq<TaskRow>,
    after_slots: Seq<SlotRow>,
    blocked: Option<(Seq<char>, int)>,
    key: Seq<char>,
)
    requires
        unique_ids(tasks),
        holders_active(tasks),
        charges_ok(tasks),
        slots_ok(tasks, slots),
        slots_of(keyed(t), charge(t), wanted),
        claim_outcome_with(
            tasks,
            slots,
            t,
            wanted,
            now,
            after_tasks,
            after_slots,
            ClaimResult::Claimed,
            blocked,
        ),
    ensures
        usage(after_slots.map_values(released_slot(after_tasks, seq![t.id])), key) == usage(
            slots,
            key,
        ),
{
    let ids = seq![t.id];
    claim_keeps_slots(
        tasks,
        slots,
        t,
        wanted,
        now,
        after_tasks,
        after_slots,
        ClaimResult::Claimed,
        blocked,
    );
    assert forall|x: u128| #[trigger] ids.contains(x) <==> x == t.id by {
        assert(ids[0] == t.id);
    }
    let w = choose|w: int|
        0 <= w < tasks.len() && #[trigger] tasks[w].id == t.id && tasks[w].status
            == StatusKind::Pending;
    assert(charges_ok(after_tasks)) by {
        assert forall|i: int|
            0 <= i < after_tasks.len() && (
            #[trigger] after_tasks[i]).capacity_charge is Some implies after_tasks[i].capacity_charge->0
            >= 0 by {
            if after_tasks[i] == tasks[i] {
                assert(tasks[i].capacity_charge is Some);
            }
        }
    }
    release_keeps_slots(after_tasks, after_slots, ids);
    let done = after_tasks.map_values(released_row(ids));
    let f = |r: TaskRow| contribution(r, key);
    assert forall|i: int| 0 <= i < done.len() implies #[trigger] f(done[i]) == f(tasks[i]) by {
        if tasks[i].id == t.id {
            assert(tasks[i].id == tasks[w].id);
            assert(tasks[w].slot_keys is None);
        }
    }
    lemma_sum_same(done, f, tasks, f);
    assert(usage(slots, key) == demand(tasks, key));
    assert(usage(after_slots.map_values(released_slot(after_tasks, ids)), key) == demand(
        done,
        key,
    ));
}

} // verus!
