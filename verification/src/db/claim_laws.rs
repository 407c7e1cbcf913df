//! What start rules let through, and what a claim takes.

use crate::db::slot_laws::{
    lemma_none_blocked, lemma_rule_keys, lemma_usage_all_taken, usage,
};
use crate::db::task_crud::{
    admits, ask_ok, asked, blocked_at, charge, claim_outcome, claim_outcome_with,
    claim_row, claim_with_slots_row, evaluable, has_capacity, has_status, pending_among, room_for,
    rule_key, rule_limit, slots_of, unique_slots, ClaimResult, SlotAsk,
};
use crate::models::{SlotRow, StatusKind, StrategyView, TaskRow};
use crate::rule::{
    first_missing, json_member, keyed, lemma_keyed_len, slot_key,
};
use crate::tally::{ids_where, lemma_ids_where_has, lemma_sum_single, lemma_sum_zero};
use crate::text::lemma_not_before_itself;
use vstd::prelude::*;

verus! {

/// The key of the slot that a rule means.
pub open spec fn slot_of(rule: StrategyView, metadata: Seq<char>) -> Option<Seq<char>> {
    match rule {
        StrategyView::Concurency { matcher, .. } => slot_key(false, matcher, metadata),
        StrategyView::Capacity { matcher, .. } => slot_key(true, matcher, metadata),
    }
}

/// The fields that a rule compares.
pub open spec fn fields_of(rule: StrategyView) -> Seq<Seq<char>> {
    match rule {
        StrategyView::Concurency { matcher, .. } => matcher.fields,
        StrategyView::Capacity { matcher, .. } => matcher.fields,
    }
}

/// A slot in which a limit is reached.
pub open spec fn is_full(slots: Seq<SlotRow>, key: Seq<char>, limit: int) -> bool {
    exists|i: int| 0 <= i < slots.len() && (#[trigger] slots[i]).key == key && slots[i].used >= limit
}

/// A rule that holds a task back: its slot cannot be told or is full. A capacity rule
/// holds a task back also where it allows nothing, or where the task does not say how
/// much work it is.
pub open spec fn holds_back(rule: StrategyView, t: TaskRow, slots: Seq<SlotRow>) -> bool {
    let key = slot_of(rule, t.metadata);
    match rule {
        StrategyView::Concurency { limit, .. } => key is None || is_full(slots, key->0, limit),
        StrategyView::Capacity { limit, .. } => key is None || is_full(slots, key->0, limit)
            || limit <= 0 || t.expected_count is None,
    }
}

/// The work that a task has left: what it expects, less what it reported.
pub open spec fn work_left(t: TaskRow) -> int {
    if t.expected_count is None || t.expected_count->0 <= t.success + t.failures {
        0
    } else {
        t.expected_count->0 - (t.success + t.failures)
    }
}

/// A slot can be told if and only if the metadata have all the fields of the rule. The
/// field that is reported missing is missing, and none before it is.
pub proof fn slots_need_every_field(
    rule: StrategyView,
    metadata: Seq<char>,
    fields: Seq<Seq<char>>,
)
    ensures
        slot_of(rule, metadata) is Some <==> forall|i: int|
            0 <= i < fields_of(rule).len() ==> json_member(
                metadata,
                #[trigger] fields_of(rule)[i],
            ) is Some,
        match first_missing(metadata, fields) {
            None => forall|i: int|
                0 <= i < fields.len() ==> json_member(metadata, #[trigger] fields[i]) is Some,
            Some(f) => exists|i: int|
                0 <= i < fields.len() && #[trigger] fields[i] == f && json_member(metadata, f) is None
                    && forall|j: int|
                    0 <= j < i ==> json_member(metadata, #[trigger] fields[j]) is Some,
        },
    decreases fields.len(),
{
    if fields.len() > 0 {
        let init = fields.drop_last();
        slots_need_every_field(rule, metadata, init);
        let n = fields.len() - 1;
        assert(fields[n] == fields.last());
        match first_missing(metadata, init) {
            Some(f) => {
                let i = choose|i: int|
                    0 <= i < init.len() && #[trigger] init[i] == f && json_member(metadata, f) is None
                        && forall|j: int|
                        0 <= j < i ==> json_member(metadata, #[trigger] init[j]) is Some;
                assert(fields[i] == f);
                assert forall|j: int| 0 <= j < i implies json_member(
                    metadata,
                    #[trigger] fields[j],
                ) is Some by {
                    assert(init[j] == fields[j]);
                }
            },
            None => {
                assert forall|j: int| 0 <= j < n implies json_member(
                    metadata,
                    #[trigger] fields[j],
                ) is Some by {
                    assert(init[j] == fields[j]);
                }
            },
        }
    }
}

proof fn lemma_keyed_at(t: TaskRow, i: int)
    requires
        0 <= i < t.rules.len(),
    ensures
        keyed(t).len() == t.rules.len(),
        rule_key(keyed(t)[i]) == slot_of(t.rules[i], t.metadata),
        keyed(t)[i] is Capacity <==> t.rules[i] is Capacity,
        rule_limit(keyed(t)[i]) == match t.rules[i] {
            StrategyView::Concurency { limit, .. } => limit,
            StrategyView::Capacity { limit, .. } => limit,
        },
{
    reveal(keyed);
}

/// A rule that blocks is one that holds back.
proof fn lemma_blocked_holds(
    slots: Seq<SlotRow>,
    t: TaskRow,
    wanted: Seq<SlotAsk>,
    k: int,
)
    requires
        slots_of(keyed(t), charge(t), wanted),
        blocked_at(slots, wanted, k),
    ensures
        exists|i: int| 0 <= i < t.rules.len() && holds_back(#[trigger] t.rules[i], t, slots),
{
    lemma_keyed_len(t);
    let a = wanted[k];
    assert(ask_ok(keyed(t), charge(t), a));
    let i = choose|i: int|
        0 <= i < keyed(t).len() && rule_key(#[trigger] keyed(t)[i]) == Some(a.key) && rule_limit(
            keyed(t)[i],
        ) == a.threshold;
    lemma_keyed_at(t, i);
    let j = choose|j: int|
        0 <= j < slots.len() && (#[trigger] slots[j]).key == a.key && slots[j].used >= a.threshold;
    assert(slots[j].key == a.key);
    assert(is_full(slots, a.key, a.threshold));
    assert(holds_back(t.rules[i], t, slots));
}

/// A rule that can be evaluated and holds back blocks.
proof fn lemma_holds_blocks(
    slots: Seq<SlotRow>,
    t: TaskRow,
    wanted: Seq<SlotAsk>,
    i: int,
)
    requires
        slots_of(keyed(t), charge(t), wanted),
        0 <= i < t.rules.len(),
        evaluable(keyed(t)[i], t.expected_count),
        holds_back(t.rules[i], t, slots),
    ensures
        exists|k: int| blocked_at(slots, wanted, k),
{
    lemma_keyed_at(t, i);
    assert(asked(wanted, keyed(t)[i]));
    let k = choose|k: int|
        0 <= k < wanted.len() && rule_key(keyed(t)[i]) == Some((#[trigger] wanted[k]).key);
    assert(ask_ok(keyed(t), charge(t), wanted[k]));
    assert(rule_limit(keyed(t)[i]) >= wanted[k].threshold);
    let key = wanted[k].key;
    assert(is_full(slots, key, rule_limit(keyed(t)[i])));
    let j = choose|j: int|
        0 <= j < slots.len() && (#[trigger] slots[j]).key == key && slots[j].used >= rule_limit(
            keyed(t)[i],
        );
    assert(!admits(slots, wanted[k])) by {
        assert(slots[j].key == wanted[k].key);
    }
    if !exists|k: int| blocked_at(slots, wanted, k) {
        lemma_none_blocked(slots, wanted, wanted.len() as int);
    }
}

/// A claim is blocked if and only if one of the task's rules holds it back. Else it
/// succeeds if and only if the task is still pending. Without success nothing changes.
pub proof fn rules_decide_a_claim(
    tasks: Seq<TaskRow>,
    slots: Seq<SlotRow>,
    t: TaskRow,
    now: int,
    after_tasks: Seq<TaskRow>,
    after_slots: Seq<SlotRow>,
    result: ClaimResult,
    blocked: Option<(Seq<char>, int)>,
)
    requires
        claim_outcome(tasks, slots, t, now, after_tasks, after_slots, result, blocked),
    ensures
        result == ClaimResult::RuleBlocked <==> exists|i: int|
            0 <= i < t.rules.len() && holds_back(#[trigger] t.rules[i], t, slots),
        result == ClaimResult::Claimed <==> {
            &&& forall|i: int|
                0 <= i < t.rules.len() ==> !holds_back(#[trigger] t.rules[i], t, slots)
            &&& exists|i: int|
                0 <= i < tasks.len() && #[trigger] tasks[i].id == t.id && tasks[i].status
                    == StatusKind::Pending
        },
        result != ClaimResult::Claimed ==> after_tasks == tasks && after_slots == slots,
        blocked is Some ==> exists|i: int|
            0 <= i < t.rules.len() && (#[trigger] t.rules[i] matches StrategyView::Concurency {
                limit,
                ..
            } && limit == (blocked->0).1) && slot_of(t.rules[i], t.metadata) == Some(
                (blocked->0).0,
            ) && is_full(slots, (blocked->0).0, (blocked->0).1),
{
    lemma_keyed_len(t);
    if t.rules.len() == 0 {
        if !has_status(tasks, t.id, StatusKind::Pending) {
            assert(after_tasks =~= tasks);
        }
    } else if exists|i: int|
        0 <= i < keyed(t).len() && !evaluable(#[trigger] keyed(t)[i], t.expected_count) {
        let i = choose|i: int|
            0 <= i < keyed(t).len() && !evaluable(#[trigger] keyed(t)[i], t.expected_count);
        lemma_keyed_at(t, i);
        assert(holds_back(t.rules[i], t, slots));
    } else {
        let wanted = choose|wanted: Seq<SlotAsk>| #[trigger]
            slots_of(keyed(t), charge(t), wanted) && claim_outcome_with(
                tasks,
                slots,
                t,
                wanted,
                now,
                after_tasks,
                after_slots,
                result,
                blocked,
            );
        if exists|k: int| blocked_at(slots, wanted, k) {
            let k = choose|k: int| #[trigger]
                blocked_at(slots, wanted, k) && blocked == if wanted[k].concurrency {
                    Some((wanted[k].key, wanted[k].threshold))
                } else {
                    None
                };
            lemma_blocked_holds(slots, t, wanted, k);
            if blocked is Some {
                let a = wanted[k];
                assert(ask_ok(keyed(t), charge(t), a));
                let i = choose|i: int|
                    0 <= i < keyed(t).len() && rule_key(#[trigger] keyed(t)[i]) == Some(a.key)
                        && rule_limit(keyed(t)[i]) == a.threshold;
                lemma_keyed_at(t, i);
                let j = choose|j: int|
                    0 <= j < slots.len() && (#[trigger] slots[j]).key == a.key && slots[j].used
                        >= a.threshold;
                assert(slots[j].key == a.key);
                assert(is_full(slots, a.key, a.threshold));
            }
        } else {
            if exists|i: int| 0 <= i < t.rules.len() && holds_back(#[trigger] t.rules[i], t, slots) {
                let i = choose|i: int|
                    0 <= i < t.rules.len() && holds_back(#[trigger] t.rules[i], t, slots);
                assert(evaluable(keyed(t)[i], t.expected_count));
                lemma_holds_blocks(slots, t, wanted, i);
            }
        }
    }
}

/// A claimed task is marked so, and knows the slots of all its rules, and, where it has a
/// capacity rule, the work that it has left. Others stay.
pub proof fn claimed_tasks_know_their_slots(
    tasks: Seq<TaskRow>,
    slots: Seq<SlotRow>,
    t: TaskRow,
    now: int,
    after_tasks: Seq<TaskRow>,
    after_slots: Seq<SlotRow>,
    blocked: Option<(Seq<char>, int)>,
    i: int,
)
    requires
        claim_outcome(
            tasks,
            slots,
            t,
            now,
            after_tasks,
            after_slots,
            ClaimResult::Claimed,
            blocked,
        ),
        0 <= i < tasks.len(),
    ensures
        after_tasks.len() == tasks.len(),
        tasks[i].id != t.id || tasks[i].status != StatusKind::Pending ==> after_tasks[i] == tasks[i],
        tasks[i].id == t.id && tasks[i].status == StatusKind::Pending ==> {
            let r = after_tasks[i];
            &&& r == (TaskRow {
                status: StatusKind::Claimed,
                last_updated: now,
                slot_keys: r.slot_keys,
                capacity_charge: r.capacity_charge,
                ..tasks[i]
            })
            &&& t.rules.len() == 0 ==> r.slot_keys == tasks[i].slot_keys && r.capacity_charge
                == tasks[i].capacity_charge
            &&& t.rules.len() > 0 ==> r.slot_keys is Some
            &&& t.rules.len() > 0 ==> forall|k: int|
                0 <= k < t.rules.len() ==> slot_of(#[trigger] t.rules[k], t.metadata) is Some
                    && (r.slot_keys->0).contains(slot_of(t.rules[k], t.metadata)->0)
            &&& t.rules.len() > 0 ==> forall|x: Seq<char>| #[trigger]
                (r.slot_keys->0).contains(x) ==> exists|k: int|
                    0 <= k < t.rules.len() && slot_of(#[trigger] t.rules[k], t.metadata) == Some(x)
            &&& t.rules.len() > 0 ==> r.capacity_charge == if exists|k: int|
                0 <= k < t.rules.len() && #[trigger] t.rules[k] is Capacity {
                Some(work_left(t))
            } else {
                None
            }
        },
{
    lemma_keyed_len(t);
    if t.rules.len() == 0 {
        assert(seq![t.id][0] == t.id);
        assert(after_tasks[i] == claim_row(seq![t.id], now)(tasks[i]));
    } else {
        let wanted = choose|wanted: Seq<SlotAsk>| #[trigger]
            slots_of(keyed(t), charge(t), wanted) && claim_outcome_with(
                tasks,
                slots,
                t,
                wanted,
                now,
                after_tasks,
                after_slots,
                ClaimResult::Claimed,
                blocked,
            );
        assert(after_tasks[i] == claim_with_slots_row(
            t.id,
            wanted.map_values(|a: SlotAsk| a.key),
            if has_capacity(keyed(t)) {
                Some(charge(t))
            } else {
                None
            },
            now,
        )(tasks[i]));
        let keys = wanted.map_values(|a: SlotAsk| a.key);
        assert forall|k: int| 0 <= k < t.rules.len() implies slot_of(
            #[trigger] t.rules[k],
            t.metadata,
        ) is Some && keys.contains(slot_of(t.rules[k], t.metadata)->0) by {
            lemma_keyed_at(t, k);
            assert(evaluable(keyed(t)[k], t.expected_count));
            assert(asked(wanted, keyed(t)[k]));
            let w = choose|w: int|
                0 <= w < wanted.len() && rule_key(keyed(t)[k]) == Some((#[trigger] wanted[w]).key);
            assert(keys[w] == wanted[w].key);
        }
        assert forall|x: Seq<char>| #[trigger] keys.contains(x) implies exists|k: int|
            0 <= k < t.rules.len() && slot_of(#[trigger] t.rules[k], t.metadata) == Some(x) by {
            let w = choose|w: int| 0 <= w < keys.len() && keys[w] == x;
            assert(ask_ok(keyed(t), charge(t), wanted[w]));
            let k = choose|k: int|
                0 <= k < keyed(t).len() && rule_key(#[trigger] keyed(t)[k]) == Some(wanted[w].key)
                    && rule_limit(keyed(t)[k]) == wanted[w].threshold;
            lemma_keyed_at(t, k);
            assert(slot_of(t.rules[k], t.metadata) == Some(x));
        }
        assert(has_capacity(keyed(t)) <==> exists|k: int|
            0 <= k < t.rules.len() && #[trigger] t.rules[k] is Capacity) by {
            if has_capacity(keyed(t)) {
                let k = choose|k: int| 0 <= k < keyed(t).len() && #[trigger] keyed(t)[k] is Capacity;
                lemma_keyed_at(t, k);
                assert(t.rules[k] is Capacity);
            }
            if exists|k: int| 0 <= k < t.rules.len() && #[trigger] t.rules[k] is Capacity {
                let k = choose|k: int| 0 <= k < t.rules.len() && #[trigger] t.rules[k] is Capacity;
                lemma_keyed_at(t, k);
                assert(keyed(t)[k] is Capacity);
            }
        }
    }
}

/// A claim takes one unit of the slot of each concurrency rule and the work that the task
/// has left from the slot of each capacity rule, and nothing of other slots. What it had
/// to spare was less than the limit.
pub proof fn claims_take_their_units(
    tasks: Seq<TaskRow>,
    slots: Seq<SlotRow>,
    t: TaskRow,
    now: int,
    after_tasks: Seq<TaskRow>,
    after_slots: Seq<SlotRow>,
    blocked: Option<(Seq<char>, int)>,
    key: Seq<char>,
)
    requires
        unique_slots(slots),
        claim_outcome(
            tasks,
            slots,
            t,
            now,
            after_tasks,
            after_slots,
            ClaimResult::Claimed,
            blocked,
        ),
    ensures
        (forall|k: int|
            0 <= k < t.rules.len() ==> slot_of(#[trigger] t.rules[k], t.metadata) != Some(key))
            ==> usage(after_slots, key) == usage(slots, key),
        forall|k: int|
            0 <= k < t.rules.len() && slot_of(#[trigger] t.rules[k], t.metadata) == Some(key)
                ==> usage(after_slots, key) == usage(slots, key) + if t.rules[k] is Capacity {
                work_left(t)
            } else {
                1
            },
{
    lemma_keyed_len(t);
    lemma_rule_keys(t);
    if t.rules.len() > 0 {
        let wanted = choose|wanted: Seq<SlotAsk>| #[trigger]
            slots_of(keyed(t), charge(t), wanted) && claim_outcome_with(
                tasks,
                slots,
                t,
                wanted,
                now,
                after_tasks,
                after_slots,
                ClaimResult::Claimed,
                blocked,
            );
        let f = |a: SlotAsk|
            if a.key == key {
                a.increment
            } else {
                0
            };
        lemma_usage_all_taken(slots, wanted, key);
        if forall|k: int|
            0 <= k < t.rules.len() ==> slot_of(#[trigger] t.rules[k], t.metadata) != Some(key) {
            assert forall|w: int| 0 <= w < wanted.len() implies #[trigger] f(wanted[w]) == 0 by {
                assert(ask_ok(keyed(t), charge(t), wanted[w]));
                let k = choose|k: int|
                    0 <= k < keyed(t).len() && rule_key(#[trigger] keyed(t)[k]) == Some(
                        wanted[w].key,
                    ) && rule_limit(keyed(t)[k]) == wanted[w].threshold;
                lemma_keyed_at(t, k);
                assert(slot_of(t.rules[k], t.metadata) != Some(key));
            }
            lemma_sum_zero(wanted, f);
        }
        assert forall|k: int|
            0 <= k < t.rules.len() && slot_of(#[trigger] t.rules[k], t.metadata) == Some(
                key,
            ) implies usage(after_slots, key) == usage(slots, key) + if t.rules[k] is Capacity {
            work_left(t)
        } else {
            1
        } by {
            lemma_keyed_at(t, k);
            assert(asked(wanted, keyed(t)[k]));
            let w = choose|w: int|
                0 <= w < wanted.len() && rule_key(keyed(t)[k]) == Some((#[trigger] wanted[w]).key);
            assert forall|v: int| 0 <= v < wanted.len() && v != w implies #[trigger] f(wanted[v])
                == 0 by {
                if wanted[v].key == key {
                    if v < w {
                        lemma_not_before_itself(wanted[v].key);
                        assert(crate::text::text_before(wanted[v].key, wanted[w].key));
                    } else {
                        lemma_not_before_itself(wanted[w].key);
                        assert(crate::text::text_before(wanted[w].key, wanted[v].key));
                    }
                }
            }
            lemma_sum_single(wanted, f, w);
            assert(ask_ok(keyed(t), charge(t), wanted[w]));
            assert(rule_key(keyed(t)[k]) is Some);
            if !(t.rules[k] is Capacity) && !wanted[w].concurrency {
                let v = choose|v: int|
                    0 <= v < keyed(t).len() && rule_key(#[trigger] keyed(t)[v]) == Some(key)
                        && keyed(t)[v] is Capacity;
                assert(rule_key(keyed(t)[v]) is Some);
            }
        }
    }
}

/// There is room for a task that no capacity rule charges, and for one whose work fits a
/// counter beside what is in use. Where there is room and no rule holds the task back, no
/// slot of a capacity rule overflows.
pub proof fn small_tasks_have_room(slots: Seq<SlotRow>, t: TaskRow, k: int, j: int)
    ensures
        (forall|i: int| 0 <= i < t.rules.len() ==> !(#[trigger] t.rules[i] is Capacity))
            ==> room_for(slots, t),
        work_left(t) <= i32::MAX && (forall|i: int|
            0 <= i < slots.len() ==> (#[trigger] slots[i]).used + work_left(t) <= i32::MAX)
            ==> room_for(slots, t),
        room_for(slots, t) && (forall|i: int|
            0 <= i < t.rules.len() ==> !holds_back(#[trigger] t.rules[i], t, slots)) && 0 <= k
            < t.rules.len() && t.rules[k] is Capacity && 0 <= j < slots.len() && slot_of(
            t.rules[k],
            t.metadata,
        ) == Some(slots[j].key) ==> work_left(t) <= i32::MAX && slots[j].used + work_left(t)
            <= i32::MAX,
{
    lemma_keyed_len(t);
    assert(charge(t) == work_left(t));
    if has_capacity(keyed(t)) {
        let i = choose|i: int| 0 <= i < keyed(t).len() && #[trigger] keyed(t)[i] is Capacity;
        lemma_keyed_at(t, i);
        assert(t.rules[i] is Capacity);
    }
    if room_for(slots, t) && (forall|i: int|
        0 <= i < t.rules.len() ==> !holds_back(#[trigger] t.rules[i], t, slots)) && 0 <= k
        < t.rules.len() && t.rules[k] is Capacity && 0 <= j < slots.len() && slot_of(
        t.rules[k],
        t.metadata,
    ) == Some(slots[j].key) {
        lemma_keyed_at(t, k);
        assert(keyed(t)[k] is Capacity);
        assert(has_capacity(keyed(t)));
        assert forall|r: int| 0 <= r < keyed(t).len() implies evaluable(
            #[trigger] keyed(t)[r],
            t.expected_count,
        ) && crate::db::task_crud::rule_admits(slots, keyed(t)[r]) by {
            lemma_keyed_at(t, r);
            assert(!holds_back(t.rules[r], t, slots));
            let key = slot_of(t.rules[r], t.metadata)->0;
            assert forall|i: int|
                0 <= i < slots.len() && rule_key(keyed(t)[r]) == Some(
                    (#[trigger] slots[i]).key,
                ) implies slots[i].used < rule_limit(keyed(t)[r]) by {
                if slots[i].used >= rule_limit(keyed(t)[r]) {
                    assert(is_full(slots, key, rule_limit(keyed(t)[r])));
                }
            }
        }
        assert(crate::db::task_crud::charge_fits(slots, keyed(t)[k], charge(t)));
        assert(rule_key(keyed(t)[k]) == Some(slots[j].key));
    }
}

/// A claim of several tasks takes those of them that are pending, and names them.
pub proof fn claims_of_several_name_the_pending_ones(
    tasks: Seq<TaskRow>,
    ids: Seq<u128>,
    now: int,
    id: u128,
    i: int,
)
    requires
        0 <= i < tasks.len(),
    ensures
        ids_where(tasks, pending_among(ids)).contains(id) <==> exists|k: int|
            0 <= k < tasks.len() && #[trigger] tasks[k].id == id && ids.contains(id)
                && tasks[k].status == StatusKind::Pending,
        claim_row(ids, now)(tasks[i]) == if ids.contains(tasks[i].id) && tasks[i].status
            == StatusKind::Pending {
            TaskRow { status: StatusKind::Claimed, last_updated: now, ..tasks[i] }
        } else {
            tasks[i]
        },
{
    let p = pending_among(ids);
    lemma_ids_where_has(tasks, p, id);
    if ids_where(tasks, p).contains(id) {
        let k = choose|k: int| 0 <= k < tasks.len() && #[trigger] tasks[k].id == id && p(tasks[k]);
        assert(tasks[k].id == id);
    }
    if exists|k: int|
        0 <= k < tasks.len() && #[trigger] tasks[k].id == id && ids.contains(id) && tasks[k].status
            == StatusKind::Pending {
        let k = choose|k: int|
            0 <= k < tasks.len() && #[trigger] tasks[k].id == id && ids.contains(id)
                && tasks[k].status == StatusKind::Pending;
        assert(p(tasks[k]));
    }
}

} // verus!
