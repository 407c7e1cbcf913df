//! Claiming tasks and the slots of their start rules.

use crate::models::{
    clone_texts, rows, slot_rows, texts, RuleSlot, SlotRow, StatusKind, Task, TaskRow,
};
use crate::rule::{keyed, keyed_rules, keyed_views, KeyedRule, KeyedView};
use crate::tally::{
    count, has_id, ids_where, lemma_ids_where_none, lemma_ids_where_take, lemma_sum_take, sum,
};
use crate::text::{
    begins_with, has_prefix, lemma_before_transitive, lemma_not_before_itself, text_before,
    text_order, TextOrder,
};
use crate::workers::propagation::unique_ids;
use vstd::prelude::*;

verus! {

// ---------------------------------------------------------------------------
// Plain status transitions
// ---------------------------------------------------------------------------

/// The pending tasks among `ids`.
pub open spec fn pending_among(ids: Seq<u128>) -> spec_fn(TaskRow) -> bool {
    |r: TaskRow| ids.contains(r.id) && r.status == StatusKind::Pending
}

/// A claim of the pending tasks among `ids`.
pub open spec fn claim_row(ids: Seq<u128>, now: int) -> spec_fn(TaskRow) -> TaskRow {
    |r: TaskRow|
        if pending_among(ids)(r) {
            TaskRow { status: StatusKind::Claimed, last_updated: now, ..r }
        } else {
            r
        }
}

/// Whether a row of `rows` with `id` is in `status`.
pub open spec fn has_status(rows: Seq<TaskRow>, id: u128, status: StatusKind) -> bool {
    exists|i: int| 0 <= i < rows.len() && #[trigger] rows[i].id == id && rows[i].status == status
}

/// Claims a run of rule-free pending tasks in one step. Returns the tasks that
/// moved from `Pending` to `Claimed`; those already claimed by another worker are
/// absent from the result.
///
/// For tasks without start rules only: no rule is evaluated.
pub fn batch_claim_tasks(tasks: &mut Vec<Task>, ids: &Vec<u128>, now: i64) -> (r: Vec<u128>)
    ensures
        rows(final(tasks)@) == rows(old(tasks)@).map_values(claim_row(ids@, now as int)),
        r@ == ids_where(rows(old(tasks)@), pending_among(ids@)),
{
    let ghost before = tasks@;
    let ghost rs = rows(before);
    let ghost p = pending_among(ids@);
    let ghost step = claim_row(ids@, now as int);
    let mut claimed: Vec<u128> = Vec::new();
    let mut i: usize = 0;
    proof {
        lemma_ids_where_none(rs, p);
    }
    while i < tasks.len()
        invariant
            i <= tasks.len(),
            tasks@.len() == before.len(),
            rs == rows(before),
            p == pending_among(ids@),
            step == claim_row(ids@, now as int),
            forall|k: int| 0 <= k < i ==> (#[trigger] tasks@[k])@ == step(before[k]@),
            forall|k: int| i <= k < before.len() ==> (#[trigger] tasks@[k]) == before[k],
            claimed@ == ids_where(rs.take(i as int), p),
        decreases tasks.len() - i,
    {
        proof {
            lemma_ids_where_take(rs, p, i as int);
            assert(tasks@[i as int] == before[i as int]);
        }
        if tasks[i].status == StatusKind::Pending && has_id(ids, tasks[i].id) {
            claimed.push(tasks[i].id);
            tasks[i].status = StatusKind::Claimed;
            tasks[i].last_updated = now;
        }
        i += 1;
    }
    proof {
        assert(rs.take(i as int) =~= rs);
        assert(rows(tasks@) =~= rs.map_values(step));
    }
    claimed
}

/// Claims one pending task. Returns whether this caller claimed it: `false` where
/// another worker got it first.
pub fn claim_task(tasks: &mut Vec<Task>, task_id: u128, now: i64) -> (r: bool)
    requires
        unique_ids(rows(old(tasks)@)),
    ensures
        rows(final(tasks)@) == rows(old(tasks)@).map_values(claim_row(seq![task_id], now as int)),
        r == has_status(rows(old(tasks)@), task_id, StatusKind::Pending),
{
    let mut ids: Vec<u128> = Vec::new();
    ids.push(task_id);
    assert(ids@ =~= seq![task_id]);
    let ghost rs = rows(tasks@);
    let claimed: Vec<u128> = batch_claim_tasks(tasks, &ids, now);
    proof {
        let p = pending_among(seq![task_id]);
        assert(seq![task_id][0] == task_id);
        crate::tally::lemma_ids_where_has(rs, p, task_id);
        if claimed@.len() > 0 {
            assert(claimed@.contains(claimed@[0]));
            crate::tally::lemma_ids_where_has(rs, p, claimed@[0]);
        }
        if has_status(rs, task_id, StatusKind::Pending) {
            let i = choose|i: int|
                0 <= i < rs.len() && #[trigger] rs[i].id == task_id && rs[i].status
                    == StatusKind::Pending;
            assert(p(rs[i]));
        }
    }
    claimed.len() > 0
}

/// The start of a claimed task.
pub open spec fn running_row(id: u128, now: int) -> spec_fn(TaskRow) -> TaskRow {
    |r: TaskRow|
        if r.id == id && r.status == StatusKind::Claimed {
            TaskRow {
                status: StatusKind::Running,
                started_at: Some(now),
                last_updated: now,
                ..r
            }
        } else {
            r
        }
}

/// Moves a claimed task to `Running`. Returns whether it was still `Claimed`.
pub fn mark_task_running(tasks: &mut Vec<Task>, task_id: u128, now: i64) -> (r: bool)
    ensures
        rows(final(tasks)@) == rows(old(tasks)@).map_values(running_row(task_id, now as int)),
        r == has_status(rows(old(tasks)@), task_id, StatusKind::Claimed),
{
    let ghost before = tasks@;
    let ghost rs = rows(before);
    let ghost step = running_row(task_id, now as int);
    let mut found: bool = false;
    let mut i: usize = 0;
    while i < tasks.len()
        invariant
            i <= tasks.len(),
            tasks@.len() == before.len(),
            rs == rows(before),
            step == running_row(task_id, now as int),
            forall|k: int| 0 <= k < i ==> (#[trigger] tasks@[k])@ == step(before[k]@),
            forall|k: int| i <= k < before.len() ==> (#[trigger] tasks@[k]) == before[k],
            found == exists|k: int|
                0 <= k < i && #[trigger] rs[k].id == task_id && rs[k].status
                    == StatusKind::Claimed,
        decreases tasks.len() - i,
    {
        assert(tasks@[i as int] == before[i as int]);
        assert(rs[i as int] == before[i as int]@);
        if tasks[i].id == task_id && tasks[i].status == StatusKind::Claimed {
            found = true;
            tasks[i].status = StatusKind::Running;
            tasks[i].started_at = Some(now);
            tasks[i].last_updated = now;
        }
        i += 1;
    }
    assert(rows(tasks@) =~= rs.map_values(step));
    found
}

// ---------------------------------------------------------------------------
// Start rules
// ---------------------------------------------------------------------------

/// What a claim asks of one slot.
#[derive(Debug)]
pub struct SlotRequest {
    /// Canonical slot key.
    pub key: String,
    /// Units to take.
    pub increment: i32,
    /// The slot admits the claim while fewer units than this are in use.
    pub threshold: i32,
    /// Whether a concurrency rule asks for the slot, and no capacity rule does.
    pub concurrency: bool,
}

/// A slot request, viewed mathematically.
#[verifier::ext_equal]
pub struct SlotAsk {
    pub key: Seq<char>,
    pub increment: int,
    pub threshold: int,
    pub concurrency: bool,
}

impl View for SlotRequest {
    type V = SlotAsk;

    open spec fn view(&self) -> SlotAsk {
        SlotAsk {
            key: self.key@,
            increment: self.increment as int,
            threshold: self.threshold as int,
            concurrency: self.concurrency,
        }
    }
}

/// The views of a list of slot requests.
pub open spec fn asks(v: Seq<SlotRequest>) -> Seq<SlotAsk> {
    v.map_values(|s: SlotRequest| s@)
}

/// Result of attempting to check the rules of a task and claim it.
#[derive(Clone, Copy, Debug, PartialEq, Eq, Structural)]
pub enum ClaimResult {
    /// The task was claimed.
    Claimed,
    /// A rule blocked the claim.
    RuleBlocked,
    /// The task was not pending any more.
    AlreadyClaimed,
}

/// The slots a task asks for when it is claimed.
#[derive(Debug)]
pub struct RuleQueryParams {
    /// The slots, sorted by key, each key once.
    pub slots: Vec<SlotRequest>,
    /// The charge to record on the task, where it has a capacity rule.
    pub capacity_charge: Option<i32>,
}

/// The slot key of a rule.
pub open spec fn rule_key(s: KeyedView) -> Option<Seq<char>> {
    match s {
        KeyedView::Concurency { key, .. } => key,
        KeyedView::Capacity { key, .. } => key,
    }
}

/// The limit of a rule.
pub open spec fn rule_limit(s: KeyedView) -> int {
    match s {
        KeyedView::Concurency { limit, .. } => limit,
        KeyedView::Capacity { limit, .. } => limit,
    }
}

/// Whether a rule can be evaluated: the metadata has the fields it needs, and a
/// capacity rule has a positive limit and a task with an expected count.
pub open spec fn evaluable(s: KeyedView, expected_count: Option<int>) -> bool {
    rule_key(s) is Some && (s is Capacity ==> rule_limit(s) > 0 && expected_count is Some)
}

/// The work that a task has left, which it charges to its capacity slots.
pub open spec fn charge(r: TaskRow) -> int {
    match r.expected_count {
        Some(e) => if e - r.success - r.failures > 0 {
            e - r.success - r.failures
        } else {
            0
        },
        None => 0,
    }
}

/// Whether one of `rules` is a capacity rule.
pub open spec fn has_capacity(rules: Seq<KeyedView>) -> bool {
    exists|i: int| 0 <= i < rules.len() && #[trigger] rules[i] is Capacity
}

/// The slot `a` is what `rules` ask of its key: the least limit of the rules
/// with the key, and one unit, or the charge where one of them is a capacity
/// rule.
pub open spec fn ask_ok(rules: Seq<KeyedView>, units: int, a: SlotAsk) -> bool {
    &&& exists|i: int|
        0 <= i < rules.len() && rule_key(#[trigger] rules[i]) == Some(a.key) && rule_limit(
            rules[i],
        ) == a.threshold
    &&& forall|i: int|
        0 <= i < rules.len() && rule_key(#[trigger] rules[i]) == Some(a.key) ==> rule_limit(
            rules[i],
        ) >= a.threshold
    &&& a.concurrency == !exists|i: int|
        0 <= i < rules.len() && rule_key(#[trigger] rules[i]) == Some(a.key)
            && rules[i] is Capacity
    &&& a.increment == if a.concurrency {
        1
    } else {
        units
    }
}

/// The slots are sorted by key, without repetition.
pub open spec fn sorted_asks(slots: Seq<SlotAsk>) -> bool {
    forall|i: int, j: int|
        #![trigger slots[i], slots[j]]
        0 <= i < j < slots.len() ==> text_before(slots[i].key, slots[j].key)
}

/// `slots` are exactly the slots that `rules` ask for.
pub open spec fn slots_of(rules: Seq<KeyedView>, units: int, slots: Seq<SlotAsk>) -> bool {
    &&& sorted_asks(slots)
    &&& forall|k: int| 0 <= k < slots.len() ==> #[trigger] ask_ok(rules, units, slots[k])
    &&& forall|i: int| 0 <= i < rules.len() ==> #[trigger] asked(slots, rules[i])
}

/// Whether one of `slots` has the key of `rule`.
pub open spec fn asked(slots: Seq<SlotAsk>, rule: KeyedView) -> bool {
    exists|k: int| 0 <= k < slots.len() && rule_key(rule) == Some((#[trigger] slots[k]).key)
}

/// The position of `key` in the sorted slots, and whether it is there.
fn find_slot(slots: &Vec<SlotRequest>, key: &String) -> (r: (usize, bool))
    requires
        sorted_asks(asks(slots@)),
    ensures
        r.0 <= slots@.len(),
        r.1 ==> r.0 < slots@.len() && slots@[r.0 as int].key@ == key@,
        forall|k: int| 0 <= k < r.0 ==> text_before((#[trigger] slots@[k]).key@, key@),
        forall|k: int|
            r.0 <= k < slots@.len() ==> text_before(key@, (#[trigger] slots@[k]).key@) || (r.1
                && k == r.0),
{
    let mut i: usize = 0;
    while i < slots.len()
        invariant
            i <= slots.len(),
            sorted_asks(asks(slots@)),
            forall|k: int| 0 <= k < i ==> text_before((#[trigger] slots@[k]).key@, key@),
        decreases slots.len() - i,
    {
        let o: TextOrder = text_order(slots[i].key.as_str(), key.as_str());
        proof {
            assert forall|k: int|
                i < k < slots@.len() && o != TextOrder::Before implies text_before(
                key@,
                (#[trigger] slots@[k]).key@,
            ) by {
                assert(asks(slots@)[i as int].key == slots@[i as int].key@);
                assert(asks(slots@)[k].key == slots@[k].key@);
                if o == TextOrder::After {
                    lemma_before_transitive(key@, slots@[i as int].key@, slots@[k].key@);
                }
            }
        }
        match o {
            TextOrder::Before => {},
            TextOrder::Same => {
                return (i, true);
            },
            TextOrder::After => {
                return (i, false);
            },
        }
        i += 1;
    }
    (i, false)
}

impl RuleQueryParams {
    /// Builds the slots that a task asks for. `Err(RuleBlocked)` where a rule
    /// cannot be evaluated: a metadata field is missing, or a capacity rule has no
    /// expected count or a limit that is not positive.
    pub fn from_task(t: &Task) -> (r: Result<Self, ClaimResult>)
        requires
            all_evaluable(t@) && has_capacity(keyed(t@)) ==> charge(t@) <= i32::MAX,
        ensures
            r is Ok <==> forall|i: int|
                0 <= i < keyed(t@).len() ==> evaluable(#[trigger] keyed(t@)[i], t@.expected_count),
            r matches Err(e) ==> e == ClaimResult::RuleBlocked,
            r matches Ok(p) ==> slots_of(keyed(t@), charge(t@), asks(p.slots@))
                && crate::models::opt_int_i32(p.capacity_charge) == if has_capacity(keyed(t@)) {
                Some(charge(t@))
            } else {
                None
            },
    {
        let strategies: Vec<KeyedRule> = keyed_rules(t);
        let ghost rules = keyed(t@);
        let left: i64 = match t.expected_count {
            Some(e) => e as i64 - t.success as i64 - t.failures as i64,
            None => 0,
        };
        let units: i32 = if left > i32::MAX as i64 {
            i32::MAX
        } else if left > 0 {
            left as i32
        } else {
            0
        };
        assert(charge(t@) <= i32::MAX ==> units == charge(t@));
        let mut slots: Vec<SlotRequest> = Vec::new();
        let mut capacity: bool = false;
        let mut i: usize = 0;
        while i < strategies.len()
            invariant
                i <= strategies.len(),
                keyed_views(strategies@) == rules,
                rules == keyed(t@),
                rules.len() == strategies@.len(),
                forall|k: int|
                    0 <= k < i ==> evaluable(#[trigger] rules[k], t@.expected_count),
                slots_of(rules.take(i as int), units as int, asks(slots@)),
                capacity == has_capacity(rules.take(i as int)),
            decreases strategies.len() - i,
        {
            let ghost r0 = rules.take(i as int);
            let ghost r1 = rules.take(i + 1);
            let ghost rule = rules[i as int];
            proof {
                assert(rule == strategies@[i as int]@);
                assert(r1 =~= r0.push(rule));
            }
            let is_capacity: bool = strategies[i].capacity;
            let limit: i32 = strategies[i].limit;
            if is_capacity && (t.expected_count.is_none() || limit <= 0) {
                assert(!evaluable(rules[i as int], t@.expected_count));
                return Err(ClaimResult::RuleBlocked);
            }
            let key: &String = match &strategies[i].key {
                Some(k) => k,
                None => {
                    assert(!evaluable(rules[i as int], t@.expected_count));
                    return Err(ClaimResult::RuleBlocked);
                },
            };
            assert(rule_key(rule) == Some(key@));
            assert(rule_limit(rule) == limit);
            assert(rule is Capacity == is_capacity);
            let (at, there): (usize, bool) = find_slot(&slots, key);
            let ghost before = asks(slots@);
            let ghost held = slots@;
            if there {
                if is_capacity {
                    slots[at].increment = units;
                    slots[at].concurrency = false;
                }
                if limit < slots[at].threshold {
                    slots[at].threshold = limit;
                }
            } else {
                slots.insert(
                    at,
                    SlotRequest {
                        key: key.clone(),
                        increment: if is_capacity {
                            units
                        } else {
                            1
                        },
                        threshold: limit,
                        concurrency: !is_capacity,
                    },
                );
            }
            if is_capacity {
                capacity = true;
            }
            proof {
                let after = asks(slots@);
                let b = before[at as int];
                assert forall|k: int| 0 <= k < before.len() implies (#[trigger] before[k]).key
                    == held[k].key@ by {}
                if there {
                    assert(after =~= before.update(
                        at as int,
                        ask_with(true, b, rule, units as int, key@),
                    ));
                } else {
                    assert(after =~= before.insert(
                        at as int,
                        ask_with(false, b, rule, units as int, key@),
                    ));
                }
                lemma_add_rule(r0, rule, units as int, before, after, at as int, there, key@);
                assert(has_capacity(r1) == (has_capacity(r0) || is_capacity)) by {
                    if has_capacity(r0) {
                        let w = choose|w: int| 0 <= w < r0.len() && #[trigger] r0[w] is Capacity;
                        assert(r1[w] is Capacity);
                    }
                    if is_capacity {
                        assert(r1[i as int] is Capacity);
                    }
                    if has_capacity(r1) && !is_capacity {
                        let w = choose|w: int| 0 <= w < r1.len() && #[trigger] r1[w] is Capacity;
                        assert(r0[w] is Capacity);
                    }
                }
            }
            i += 1;
        }
        proof {
            assert(rules.take(i as int) =~= rules);
            assert(all_evaluable(t@));
            if !has_capacity(rules) {
                lemma_units_unused(rules, units as int, charge(t@), asks(slots@));
            }
        }
        let capacity_charge: Option<i32> = if capacity {
            Some(units)
        } else {
            None
        };
        Ok(RuleQueryParams { slots, capacity_charge })
    }
}

/// Without a capacity rule, what is asked does not depend on the charge.
proof fn lemma_units_unused(rules: Seq<KeyedView>, a: int, b: int, slots: Seq<SlotAsk>)
    requires
        !has_capacity(rules),
        slots_of(rules, a, slots),
    ensures
        slots_of(rules, b, slots),
{
    assert forall|k: int| 0 <= k < slots.len() implies #[trigger] ask_ok(rules, b, slots[k]) by {
        assert(ask_ok(rules, a, slots[k]));
    }
}

/// What one more rule makes of the slot of its key.
spec fn ask_with(there: bool, old_ask: SlotAsk, rule: KeyedView, units: int, key: Seq<char>) -> SlotAsk {
    if there {
        SlotAsk {
            key,
            increment: if rule is Capacity {
                units
            } else {
                old_ask.increment
            },
            threshold: if rule_limit(rule) < old_ask.threshold {
                rule_limit(rule)
            } else {
                old_ask.threshold
            },
            concurrency: old_ask.concurrency && !(rule is Capacity),
        }
    } else {
        SlotAsk {
            key,
            increment: if rule is Capacity {
                units
            } else {
                1
            },
            threshold: rule_limit(rule),
            concurrency: !(rule is Capacity),
        }
    }
}

/// Inserting a key where it belongs keeps the slots sorted.
proof fn lemma_insert_sorted(before: Seq<SlotAsk>, at: int, a: SlotAsk)
    requires
        sorted_asks(before),
        0 <= at <= before.len(),
        forall|k: int| 0 <= k < at ==> text_before((#[trigger] before[k]).key, a.key),
        forall|k: int| at <= k < before.len() ==> text_before(a.key, (#[trigger] before[k]).key),
    ensures
        sorted_asks(before.insert(at, a)),
{
    let after = before.insert(at, a);
    assert forall|i: int, j: int|
        #![trigger after[i], after[j]]
        0 <= i < j < after.len() implies text_before(after[i].key, after[j].key) by {
        let x = if i < at {
            i
        } else {
            i - 1
        };
        let y = if j < at {
            j
        } else {
            j - 1
        };
        if i != at && j != at {
            assert(after[i] == before[x] && after[j] == before[y]);
        } else if i == at {
            assert(after[j] == before[y]);
        } else {
            assert(after[i] == before[x]);
        }
    }
}

/// A rule with another key does not change what a slot is asked.
proof fn lemma_ask_other(r0: Seq<KeyedView>, rule: KeyedView, units: int, a: SlotAsk)
    requires
        ask_ok(r0, units, a),
        rule_key(rule) != Some(a.key),
    ensures
        ask_ok(r0.push(rule), units, a),
{
    let r1 = r0.push(rule);
    assert forall|i: int| 0 <= i < r0.len() implies #[trigger] r0[i] == r1[i] by {}
    let w = choose|w: int|
        0 <= w < r0.len() && rule_key(#[trigger] r0[w]) == Some(a.key) && rule_limit(r0[w])
            == a.threshold;
    assert(rule_key(r1[w]) == Some(a.key));
    if !a.concurrency {
        let v = choose|v: int|
            0 <= v < r0.len() && rule_key(#[trigger] r0[v]) == Some(a.key) && r0[v] is Capacity;
        assert(rule_key(r1[v]) == Some(a.key) && r1[v] is Capacity);
    }
    assert forall|i: int| 0 <= i < r1.len() && rule_key(#[trigger] r1[i]) == Some(
        a.key,
    ) implies rule_limit(r1[i]) >= a.threshold && (a.concurrency ==> !(r1[i] is Capacity)) by {
        assert(i < r0.len());
        assert(r0[i] == r1[i]);
    }
}

/// A rule with the slot's key changes what the slot is asked.
proof fn lemma_ask_same(
    r0: Seq<KeyedView>,
    rule: KeyedView,
    units: int,
    there: bool,
    b: SlotAsk,
    key: Seq<char>,
)
    requires
        rule_key(rule) == Some(key),
        there ==> b.key == key && ask_ok(r0, units, b),
        !there ==> forall|i: int| 0 <= i < r0.len() ==> rule_key(#[trigger] r0[i]) != Some(key),
    ensures
        ask_ok(r0.push(rule), units, ask_with(there, b, rule, units, key)),
{
    let r1 = r0.push(rule);
    let n = r0.len() as int;
    let a = ask_with(there, b, rule, units, key);
    assert forall|i: int| 0 <= i < r0.len() implies #[trigger] r0[i] == r1[i] by {}
    assert(r1[n] == rule);
    assert(rule_key(r1[n]) == Some(key));
    if there {
        let w = choose|w: int|
            0 <= w < r0.len() && rule_key(#[trigger] r0[w]) == Some(b.key) && rule_limit(r0[w])
                == b.threshold;
        assert(rule_key(r1[w]) == Some(key) && rule_limit(r1[w]) == b.threshold);
        if !b.concurrency {
            let v = choose|v: int|
                0 <= v < r0.len() && rule_key(#[trigger] r0[v]) == Some(b.key) && r0[v] is Capacity;
            assert(rule_key(r1[v]) == Some(key) && r1[v] is Capacity);
        }
    }
    assert forall|i: int| 0 <= i < r1.len() && rule_key(#[trigger] r1[i]) == Some(
        key,
    ) implies rule_limit(r1[i]) >= a.threshold && (a.concurrency ==> !(r1[i] is Capacity)) by {
        if i < n {
            assert(r0[i] == r1[i]);
        }
    }
}

/// One more rule, folded into the slots of the earlier ones.
proof fn lemma_add_rule(
    r0: Seq<KeyedView>,
    rule: KeyedView,
    units: int,
    before: Seq<SlotAsk>,
    after: Seq<SlotAsk>,
    at: int,
    there: bool,
    key: Seq<char>,
)
    requires
        slots_of(r0, units, before),
        rule_key(rule) == Some(key),
        0 <= at <= before.len(),
        there ==> at < before.len() && before[at].key == key,
        forall|k: int| 0 <= k < at ==> text_before((#[trigger] before[k]).key, key),
        forall|k: int|
            at <= k < before.len() ==> text_before(key, (#[trigger] before[k]).key) || (there && k
                == at),
        after == if there {
            before.update(at, ask_with(true, before[at], rule, units, key))
        } else {
            before.insert(at, ask_with(false, before[at], rule, units, key))
        },
    ensures
        slots_of(r0.push(rule), units, after),
{
    let r1 = r0.push(rule);
    let n = r0.len() as int;
    lemma_not_before_itself(key);
    assert forall|k: int| 0 <= k < before.len() && (#[trigger] before[k]).key == key implies there
        && k == at by {}
    if there {
        assert forall|i: int, j: int|
            #![trigger after[i], after[j]]
            0 <= i < j < after.len() implies text_before(after[i].key, after[j].key) by {
            assert(after[i].key == before[i].key && after[j].key == before[j].key);
        }
    } else {
        lemma_insert_sorted(before, at, after[at]);
        assert forall|i: int| 0 <= i < r0.len() implies rule_key(#[trigger] r0[i]) != Some(key) by {
            assert(asked(before, r0[i]));
            let k = choose|k: int|
                0 <= k < before.len() && rule_key(r0[i]) == Some((#[trigger] before[k]).key);
            assert(before[k].key != key);
        }
    }
    lemma_ask_same(r0, rule, units, there, before[at], key);
    assert forall|k: int| 0 <= k < after.len() implies #[trigger] ask_ok(r1, units, after[k]) by {
        if k != at {
            let x = if there || k < at {
                k
            } else {
                k - 1
            };
            assert(after[k] == before[x]);
            assert(ask_ok(r0, units, before[x]));
            assert(before[x].key != key);
            lemma_ask_other(r0, rule, units, before[x]);
        }
    }
    assert forall|i: int| 0 <= i < r1.len() implies #[trigger] asked(after, r1[i]) by {
        if i == n {
            assert(after[at].key == key);
        } else {
            assert(r0[i] == r1[i]);
            assert(asked(before, r0[i]));
            let k = choose|k: int|
                0 <= k < before.len() && rule_key(r0[i]) == Some((#[trigger] before[k]).key);
            let x = if there || k < at {
                k
            } else {
                k + 1
            };
            assert(after[x].key == before[k].key);
        }
    }
}

// ---------------------------------------------------------------------------
// Taking slots
// ---------------------------------------------------------------------------

/// The concurrency slot that blocked a claim.
#[derive(Debug)]
pub struct BlockedConcurrency {
    /// Canonical slot key.
    pub key: String,
    /// A threshold that the slot's use has reached.
    pub threshold: i32,
}

/// The outcome of a claim, with the concurrency slot that blocked it, if one did.
#[derive(Debug)]
pub struct ClaimOutcome {
    /// What happened.
    pub result: ClaimResult,
    /// The concurrency slot that was full.
    pub blocked_concurrency: Option<BlockedConcurrency>,
}

/// No two slot rows share a key.
pub open spec fn unique_slots(slots: Seq<SlotRow>) -> bool {
    forall|i: int, j: int|
        #![trigger slots[i], slots[j]]
        0 <= i < slots.len() && 0 <= j < slots.len() && slots[i].key == slots[j].key ==> i == j
}

/// Whether the slot admits a claim: fewer units than the threshold are in use, or
/// the slot does not exist yet.
pub open spec fn admits(slots: Seq<SlotRow>, a: SlotAsk) -> bool {
    forall|i: int|
        0 <= i < slots.len() && (#[trigger] slots[i]).key == a.key ==> slots[i].used < a.threshold
}

/// The slots after the units of `a` were taken.
pub open spec fn taken(slots: Seq<SlotRow>, a: SlotAsk) -> Seq<SlotRow> {
    if exists|i: int| 0 <= i < slots.len() && (#[trigger] slots[i]).key == a.key {
        slots.map_values(
            |s: SlotRow|
                if s.key == a.key {
                    SlotRow { used: s.used + a.increment, ..s }
                } else {
                    s
                },
        )
    } else {
        slots.push(SlotRow { key: a.key, used: a.increment })
    }
}

/// The slots after the units of all of `wanted` were taken.
pub open spec fn all_taken(slots: Seq<SlotRow>, wanted: Seq<SlotAsk>) -> Seq<SlotRow>
    decreases wanted.len(),
{
    if wanted.len() == 0 {
        slots
    } else {
        taken(all_taken(slots, wanted.drop_last()), wanted.last())
    }
}

/// A task claimed with its slots.
pub open spec fn claim_with_slots_row(
    id: u128,
    keys: Seq<Seq<char>>,
    units: Option<int>,
    now: int,
) -> spec_fn(TaskRow) -> TaskRow {
    |r: TaskRow|
        if r.id == id && r.status == StatusKind::Pending {
            TaskRow {
                status: StatusKind::Claimed,
                last_updated: now,
                slot_keys: Some(keys),
                capacity_charge: units,
                ..r
            }
        } else {
            r
        }
}

/// Every rule of the task can be evaluated.
pub open spec fn all_evaluable(t: TaskRow) -> bool {
    forall|r: int|
        0 <= r < keyed(t).len() ==> evaluable(#[trigger] keyed(t)[r], t.expected_count)
}

/// Fewer units than the rule's limit are in use in its slot.
pub open spec fn rule_admits(slots: Seq<SlotRow>, rule: KeyedView) -> bool {
    forall|i: int|
        0 <= i < slots.len() && rule_key(rule) == Some((#[trigger] slots[i]).key) ==> slots[i].used
            < rule_limit(rule)
}

/// The slot of a capacity rule leaves room for the charge of a task.
pub open spec fn charge_fits(slots: Seq<SlotRow>, rule: KeyedView, units: int) -> bool {
    rule is Capacity ==> forall|i: int|
        0 <= i < slots.len() && rule_key(rule) == Some((#[trigger] slots[i]).key) ==> slots[i].used
            + units <= i32::MAX
}

/// The counters have room for the claim of a task: its charge, where it has a
/// capacity rule, fits a counter, and where its rules admit the claim, its own
/// capacity slots can take the charge. A unit always fits where a limit admits it.
pub open spec fn room_for(slots: Seq<SlotRow>, t: TaskRow) -> bool {
    all_evaluable(t) && has_capacity(keyed(t)) ==> {
        &&& charge(t) <= i32::MAX
        &&& (forall|r: int| 0 <= r < keyed(t).len() ==> rule_admits(slots, #[trigger] keyed(t)[r]))
            ==> forall|r: int|
            0 <= r < keyed(t).len() ==> charge_fits(slots, #[trigger] keyed(t)[r], charge(t))
    }
}

/// Whether a rule can be evaluated.
fn is_evaluable(rule: &KeyedRule, expected_count: Option<i32>) -> (r: bool)
    ensures
        r == evaluable(rule@, crate::models::opt_int_i32(expected_count)),
{
    rule.key.is_some() && (!rule.capacity || (rule.limit > 0 && expected_count.is_some()))
}

/// Whether the slot of a rule has fewer units in use than its limit, and whether it
/// can take `units` more.
fn rule_room(slots: &Vec<RuleSlot>, key: &String, limit: i32, units: i64) -> (r: (bool, bool))
    requires
        0 <= units <= i32::MAX,
    ensures
        r.0 == forall|i: int|
            0 <= i < slots@.len() && (#[trigger] slot_rows(slots@)[i]).key == key@ ==> slot_rows(
                slots@,
            )[i].used < limit,
        r.1 == forall|i: int|
            0 <= i < slots@.len() && (#[trigger] slot_rows(slots@)[i]).key == key@ ==> slot_rows(
                slots@,
            )[i].used + units <= i32::MAX,
{
    let ghost rs = slot_rows(slots@);
    let mut under: bool = true;
    let mut fits: bool = true;
    let mut i: usize = 0;
    while i < slots.len()
        invariant
            i <= slots.len(),
            rs == slot_rows(slots@),
            0 <= units <= i32::MAX,
            under == forall|k: int|
                0 <= k < i && (#[trigger] rs[k]).key == key@ ==> rs[k].used < limit,
            fits == forall|k: int|
                0 <= k < i && (#[trigger] rs[k]).key == key@ ==> rs[k].used + units <= i32::MAX,
        decreases slots.len() - i,
    {
        assert(rs[i as int] == slots@[i as int]@);
        if slots[i].lock_key == *key {
            if slots[i].used >= limit {
                under = false;
            }
            if slots[i].used as i64 + units > i32::MAX as i64 {
                fits = false;
            }
        }
        i += 1;
    }
    (under, fits)
}

/// Executable form of [`room_for`].
pub fn has_room(slots: &Vec<RuleSlot>, t: &Task) -> (r: bool)
    ensures
        r == room_for(slot_rows(slots@), t@),
{
    let strategies: Vec<KeyedRule> = keyed_rules(t);
    let ghost rules = keyed(t@);
    let ghost ss = slot_rows(slots@);
    let left: i64 = match t.expected_count {
        Some(e) => e as i64 - t.success as i64 - t.failures as i64,
        None => 0,
    };
    let units: i64 = if left > 0 {
        left
    } else {
        0
    };
    assert(units == charge(t@));
    let mut capacity: bool = false;
    let mut i: usize = 0;
    while i < strategies.len()
        invariant
            i <= strategies.len(),
            keyed_views(strategies@) == rules,
            rules == keyed(t@),
            rules.len() == strategies@.len(),
            forall|k: int| 0 <= k < i ==> evaluable(#[trigger] rules[k], t@.expected_count),
            capacity == exists|k: int| 0 <= k < i && #[trigger] rules[k] is Capacity,
        decreases strategies.len() - i,
    {
        assert(rules[i as int] == strategies@[i as int]@);
        if !is_evaluable(&strategies[i], t.expected_count) {
            assert(!evaluable(rules[i as int], t@.expected_count));
            return true;
        }
        if strategies[i].capacity {
            capacity = true;
        }
        i += 1;
    }
    assert(all_evaluable(t@));
    assert(capacity == has_capacity(rules));
    if !capacity {
        return true;
    }
    if units > i32::MAX as i64 {
        return false;
    }
    let mut admitted: bool = true;
    let mut fits: bool = true;
    let mut i: usize = 0;
    while i < strategies.len()
        invariant
            i <= strategies.len(),
            keyed_views(strategies@) == rules,
            rules == keyed(t@),
            rules.len() == strategies@.len(),
            ss == slot_rows(slots@),
            0 <= units <= i32::MAX,
            units == charge(t@),
            all_evaluable(t@),
            admitted == forall|k: int| 0 <= k < i ==> rule_admits(ss, #[trigger] rules[k]),
            fits == forall|k: int|
                0 <= k < i ==> charge_fits(ss, #[trigger] rules[k], units as int),
        decreases strategies.len() - i,
    {
        assert(rules[i as int] == strategies@[i as int]@);
        assert(evaluable(rules[i as int], t@.expected_count));
        if let Some(key) = &strategies[i].key {
            let (under, room): (bool, bool) = rule_room(slots, key, strategies[i].limit, units);
            admitted = admitted && under;
            assert(rule_admits(ss, rules[i as int]) == under);
            if strategies[i].capacity {
                fits = fits && room;
                assert(charge_fits(ss, rules[i as int], units as int) == room);
            }
        }
        i += 1;
    }
    !admitted || fits
}

/// The first slot of `wanted` that does not admit its claim blocks it.
pub open spec fn blocked_at(slots: Seq<SlotRow>, wanted: Seq<SlotAsk>, k: int) -> bool {
    &&& 0 <= k < wanted.len()
    &&& !admits(slots, wanted[k])
    &&& forall|j: int| 0 <= j < k ==> admits(slots, #[trigger] wanted[j])
}

/// What a claim of the task `t` does to the tasks and slots, and what it
/// answers.
///
/// Without rules it is a plain claim. A rule that cannot be evaluated, or a slot
/// that does not admit the claim, blocks it; a task that is not pending any more
/// was claimed already; in both cases nothing changes. Otherwise the units are
/// taken, and the task records the slots it holds and its capacity charge.
pub open spec fn claim_outcome(
    tasks: Seq<TaskRow>,
    slots: Seq<SlotRow>,
    t: TaskRow,
    now: int,
    after_tasks: Seq<TaskRow>,
    after_slots: Seq<SlotRow>,
    result: ClaimResult,
    blocked: Option<(Seq<char>, int)>,
) -> bool {
    let pending = has_status(tasks, t.id, StatusKind::Pending);
    if t.rules.len() == 0 {
        &&& after_tasks == tasks.map_values(claim_row(seq![t.id], now))
        &&& after_slots == slots
        &&& result == if pending {
            ClaimResult::Claimed
        } else {
            ClaimResult::AlreadyClaimed
        }
        &&& blocked is None
    } else if exists|i: int|
        0 <= i < keyed(t).len() && !evaluable(#[trigger] keyed(t)[i], t.expected_count) {
        &&& after_tasks == tasks
        &&& after_slots == slots
        &&& result == ClaimResult::RuleBlocked
        &&& blocked is None
    } else {
        exists|wanted: Seq<SlotAsk>| #[trigger]
            slots_of(keyed(t), charge(t), wanted) && claim_outcome_with(
                tasks,
                slots,
                t,
                wanted,
                now,
                after_tasks,
                after_slots,
                result,
                blocked,
            )
    }
}

/// [`claim_outcome`] of a task whose rules ask for `wanted`.
pub open spec fn claim_outcome_with(
    tasks: Seq<TaskRow>,
    slots: Seq<SlotRow>,
    t: TaskRow,
    wanted: Seq<SlotAsk>,
    now: int,
    after_tasks: Seq<TaskRow>,
    after_slots: Seq<SlotRow>,
    result: ClaimResult,
    blocked: Option<(Seq<char>, int)>,
) -> bool {
    if exists|k: int| blocked_at(slots, wanted, k) {
        &&& after_tasks == tasks
        &&& after_slots == slots
        &&& result == ClaimResult::RuleBlocked
        &&& exists|k: int| #[trigger]
            blocked_at(slots, wanted, k) && blocked == if wanted[k].concurrency {
                Some((wanted[k].key, wanted[k].threshold))
            } else {
                None
            }
    } else if !has_status(tasks, t.id, StatusKind::Pending) {
        &&& after_tasks == tasks
        &&& after_slots == slots
        &&& result == ClaimResult::AlreadyClaimed
        &&& blocked is None
    } else {
        &&& after_tasks == tasks.map_values(
            claim_with_slots_row(
                t.id,
                wanted.map_values(|a: SlotAsk| a.key),
                if has_capacity(keyed(t)) {
                    Some(charge(t))
                } else {
                    None
                },
                now,
            ),
        )
        &&& after_slots == all_taken(slots, wanted)
        &&& result == ClaimResult::Claimed
        &&& blocked is None
    }
}

/// The view of the slot that blocked a claim.
pub open spec fn blocked_view(b: Option<BlockedConcurrency>) -> Option<(Seq<char>, int)> {
    match b {
        Some(x) => Some((x.key@, x.threshold as int)),
        None => None,
    }
}

/// Whether the slot admits a claim.
fn is_admitted(slots: &Vec<RuleSlot>, a: &SlotRequest) -> (r: bool)
    ensures
        r == admits(slot_rows(slots@), a@),
{
    let ghost rs = slot_rows(slots@);
    let mut i: usize = 0;
    while i < slots.len()
        invariant
            i <= slots.len(),
            rs == slot_rows(slots@),
            forall|k: int|
                0 <= k < i && (#[trigger] rs[k]).key == a.key@ ==> rs[k].used < a.threshold,
        decreases slots.len() - i,
    {
        assert(rs[i as int] == slots@[i as int]@);
        if slots[i].lock_key == a.key && slots[i].used >= a.threshold {
            return false;
        }
        i += 1;
    }
    true
}

/// Takes the units of one request.
fn take_slot(slots: &mut Vec<RuleSlot>, a: &SlotRequest)
    requires
        forall|i: int|
            0 <= i < old(slots)@.len() && (#[trigger] old(slots)@[i]).lock_key@ == a.key@
                ==> i32::MIN <= old(slots)@[i].used + a.increment <= i32::MAX,
    ensures
        slot_rows(final(slots)@) == taken(slot_rows(old(slots)@), a@),
{
    let ghost before = slots@;
    let ghost rs = slot_rows(before);
    let ghost step = |s: SlotRow|
        if s.key == a@.key {
            SlotRow { used: s.used + a@.increment, ..s }
        } else {
            s
        };
    let mut found: bool = false;
    let mut i: usize = 0;
    while i < slots.len()
        invariant
            i <= slots.len(),
            slots@.len() == before.len(),
            rs == slot_rows(before),
            step == (|s: SlotRow|
                if s.key == a@.key {
                    SlotRow { used: s.used + a@.increment, ..s }
                } else {
                    s
                }),
            forall|k: int|
                0 <= k < before.len() && (#[trigger] before[k]).lock_key@ == a.key@ ==> i32::MIN
                    <= before[k].used + a.increment <= i32::MAX,
            forall|k: int| 0 <= k < i ==> (#[trigger] slots@[k])@ == step(rs[k]),
            forall|k: int| i <= k < before.len() ==> (#[trigger] slots@[k]) == before[k],
            found == exists|k: int| 0 <= k < i && (#[trigger] rs[k]).key == a.key@,
        decreases slots.len() - i,
    {
        assert(slots@[i as int] == before[i as int]);
        assert(rs[i as int] == before[i as int]@);
        if slots[i].lock_key == a.key {
            found = true;
            slots[i].used = slots[i].used + a.increment;
        }
        i += 1;
    }
    if found {
        assert(slot_rows(slots@) =~= rs.map_values(step));
    } else {
        assert(slot_rows(slots@) =~= rs);
        let row: RuleSlot = RuleSlot { lock_key: a.key.clone(), used: a.increment };
        let ghost held = slots@;
        let ghost added = row@;
        slots.push(row);
        assert(slot_rows(slots@) =~= slot_rows(held).push(added));
    }
}

/// A slot whose key is not among `wanted` is left alone.
proof fn lemma_untouched(slots: Seq<SlotRow>, wanted: Seq<SlotAsk>, key: Seq<char>)
    requires
        forall|k: int| 0 <= k < wanted.len() ==> (#[trigger] wanted[k]).key != key,
    ensures
        forall|i: int|
            0 <= i < all_taken(slots, wanted).len() && (#[trigger] all_taken(slots, wanted)[i]).key
                == key ==> i < slots.len() && all_taken(slots, wanted)[i] == slots[i],
        forall|i: int|
            0 <= i < slots.len() && (#[trigger] slots[i]).key == key ==> i < all_taken(
                slots,
                wanted,
            ).len() && all_taken(slots, wanted)[i] == slots[i],
    decreases wanted.len(),
{
    if wanted.len() > 0 {
        let init = wanted.drop_last();
        assert forall|k: int| 0 <= k < init.len() implies (#[trigger] init[k]).key != key by {
            assert(wanted[k] == init[k]);
        }
        lemma_untouched(slots, init, key);
        let mid = all_taken(slots, init);
        let fin = all_taken(slots, wanted);
        let a = wanted.last();
        assert(wanted[wanted.len() - 1] == a);
        assert(fin == taken(mid, a));
        assert forall|i: int| 0 <= i < fin.len() && (#[trigger] fin[i]).key == key implies i
            < slots.len() && fin[i] == slots[i] by {
            assert(i < mid.len());
            assert(mid[i].key == key);
        }
        assert forall|i: int| 0 <= i < slots.len() && (#[trigger] slots[i]).key == key implies i
            < fin.len() && fin[i] == slots[i] by {
            assert(mid[i] == slots[i]);
        }
    }
}

/// Where the rules of a task admit its claim, there is room for what it takes.
proof fn lemma_room_taken(slots: Seq<SlotRow>, t: TaskRow, wanted: Seq<SlotAsk>)
    requires
        room_for(slots, t),
        all_evaluable(t),
        slots_of(keyed(t), charge(t), wanted),
        forall|k: int| 0 <= k < wanted.len() ==> admits(slots, #[trigger] wanted[k]),
        forall|k: int| 0 <= k < wanted.len() ==> (#[trigger] wanted[k]).threshold <= i32::MAX,
    ensures
        forall|k: int, j: int|
            #![trigger wanted[k], slots[j]]
            0 <= k < wanted.len() && 0 <= j < slots.len() && slots[j].key == wanted[k].key
                ==> slots[j].used + wanted[k].increment <= i32::MAX,
{
    assert forall|r: int| 0 <= r < keyed(t).len() implies rule_admits(
        slots,
        #[trigger] keyed(t)[r],
    ) by {
        assert(asked(wanted, keyed(t)[r]));
        let k = choose|k: int|
            0 <= k < wanted.len() && rule_key(keyed(t)[r]) == Some((#[trigger] wanted[k]).key);
        assert(ask_ok(keyed(t), charge(t), wanted[k]));
        assert(admits(slots, wanted[k]));
        assert(rule_limit(keyed(t)[r]) >= wanted[k].threshold);
    }
    assert forall|k: int, j: int|
        #![trigger wanted[k], slots[j]]
        0 <= k < wanted.len() && 0 <= j < slots.len() && slots[j].key == wanted[k].key implies
        slots[j].used + wanted[k].increment <= i32::MAX by {
        assert(ask_ok(keyed(t), charge(t), wanted[k]));
        assert(admits(slots, wanted[k]));
        if !wanted[k].concurrency {
            let r = choose|r: int|
                0 <= r < keyed(t).len() && rule_key(#[trigger] keyed(t)[r]) == Some(wanted[k].key)
                    && keyed(t)[r] is Capacity;
            assert(has_capacity(keyed(t)));
            assert(charge_fits(slots, keyed(t)[r], charge(t)));
        }
    }
}

/// Atomically evaluates a task's rules and claims it, taking the units of its
/// slots. Answers also which concurrency slot blocked the claim, if one did.
pub fn claim_task_with_rules_detailed(
    tasks: &mut Vec<Task>,
    slots: &mut Vec<RuleSlot>,
    t: &Task,
    now: i64,
) -> (r: ClaimOutcome)
    requires
        unique_ids(rows(old(tasks)@)),
        room_for(slot_rows(old(slots)@), t@),
    ensures
        claim_outcome(
            rows(old(tasks)@),
            slot_rows(old(slots)@),
            t@,
            now as int,
            rows(final(tasks)@),
            slot_rows(final(slots)@),
            r.result,
            blocked_view(r.blocked_concurrency),
        ),
{
    let ghost rs = rows(tasks@);
    let ghost ss = slot_rows(slots@);
    if t.start_condition.0.len() == 0 {
        assert(t@.rules.len() == 0);
        let won: bool = claim_task(tasks, t.id, now);
        let result: ClaimResult = if won {
            ClaimResult::Claimed
        } else {
            ClaimResult::AlreadyClaimed
        };
        return ClaimOutcome { result, blocked_concurrency: None };
    }
    assert(t@.rules.len() > 0);
    let params: RuleQueryParams = match RuleQueryParams::from_task(t) {
        Ok(p) => p,
        Err(result) => {
            return ClaimOutcome { result, blocked_concurrency: None };
        },
    };
    let ghost wanted = asks(params.slots@);
    let mut i: usize = 0;
    while i < params.slots.len()
        invariant
            i <= params.slots.len(),
            wanted == asks(params.slots@),
            *slots == *old(slots),
            *tasks == *old(tasks),
            rs == rows(tasks@),
            ss == slot_rows(slots@),
            room_for(ss, t@),
            slots_of(keyed(t@), charge(t@), wanted),
            t@.rules.len() > 0,
            forall|k: int|
                0 <= k < keyed(t@).len() ==> evaluable(#[trigger] keyed(t@)[k], t@.expected_count),
            forall|j: int| 0 <= j < i ==> admits(ss, #[trigger] wanted[j]),
        decreases params.slots.len() - i,
    {
        assert(wanted[i as int] == params.slots@[i as int]@);
        if !is_admitted(slots, &params.slots[i]) {
            assert(blocked_at(ss, wanted, i as int));
            let blocked_concurrency: Option<BlockedConcurrency> = if params.slots[i].concurrency {
                Some(
                    BlockedConcurrency {
                        key: params.slots[i].key.clone(),
                        threshold: params.slots[i].threshold,
                    },
                )
            } else {
                None
            };
            return ClaimOutcome { result: ClaimResult::RuleBlocked, blocked_concurrency };
        }
        i += 1;
    }
    assert(!exists|k: int| blocked_at(ss, wanted, k)) by {
        if exists|k: int| blocked_at(ss, wanted, k) {
            let k = choose|k: int| blocked_at(ss, wanted, k);
            assert(admits(ss, wanted[k]));
        }
    }
    let mut keys: Vec<String> = Vec::new();
    let ghost keyf = |a: SlotAsk| a.key;
    let mut i: usize = 0;
    while i < params.slots.len()
        invariant
            i <= params.slots.len(),
            wanted == asks(params.slots@),
            keyf == (|a: SlotAsk| a.key),
            texts(keys@) =~= wanted.map_values(keyf).take(i as int),
        decreases params.slots.len() - i,
    {
        let key: String = params.slots[i].key.clone();
        proof {
            assert(wanted[i as int] == params.slots@[i as int]@);
            assert(texts(keys@.push(key)) =~= texts(keys@).push(key@));
            assert(wanted.map_values(keyf).take(i + 1) =~= wanted.map_values(keyf).take(
                i as int,
            ).push(key@));
        }
        keys.push(key);
        i += 1;
    }
    assert(wanted.map_values(keyf).take(i as int) =~= wanted.map_values(keyf));
    let won: bool = claim_with_slots(tasks, t.id, &keys, params.capacity_charge, now);
    if !won {
        assert(rows(tasks@) =~= rs) by {
            let step = claim_with_slots_row(
                t.id,
                texts(keys@),
                crate::models::opt_int_i32(params.capacity_charge),
                now as int,
            );
            assert forall|k: int| 0 <= k < rs.len() implies step(rs[k]) == rs[k] by {
                assert(rs[k].id == t.id ==> rs[k].status != StatusKind::Pending);
            }
        }
        return ClaimOutcome { result: ClaimResult::AlreadyClaimed, blocked_concurrency: None };
    }
    let mut i: usize = 0;
    proof {
        assert(wanted.take(0) =~= Seq::empty());
        assert forall|k: int| 0 <= k < wanted.len() implies (#[trigger] wanted[k]).threshold
            <= i32::MAX by {
            assert(wanted[k] == params.slots@[k]@);
        }
        lemma_room_taken(ss, t@, wanted);
    }
    while i < params.slots.len()
        invariant
            i <= params.slots.len(),
            wanted == asks(params.slots@),
            slots_of(keyed(t@), charge(t@), wanted),
            forall|k: int, j: int|
                #![trigger wanted[k], ss[j]]
                0 <= k < wanted.len() && 0 <= j < ss.len() && ss[j].key == wanted[k].key
                    ==> ss[j].used + wanted[k].increment <= i32::MAX,
            slot_rows(slots@) == all_taken(ss, wanted.take(i as int)),
        decreases params.slots.len() - i,
    {
        let ghost cur = slot_rows(slots@);
        proof {
            let a = wanted[i as int];
            let part = wanted.take(i as int);
            assert(a == params.slots@[i as int]@);
            assert(ask_ok(keyed(t@), charge(t@), wanted[i as int]));
            assert forall|k: int| 0 <= k < part.len() implies (#[trigger] part[k]).key
                != a.key by {
                assert(part[k] == wanted[k]);
                lemma_not_before_itself(a.key);
                assert(text_before(wanted[k].key, wanted[i as int].key));
            }
            lemma_untouched(ss, part, a.key);
            assert forall|k: int|
                0 <= k < slots@.len() && (#[trigger] slots@[k]).lock_key@ == a.key implies i32::MIN
                <= slots@[k].used + a.increment <= i32::MAX by {
                assert(cur[k] == slots@[k]@);
                assert(cur[k] == ss[k]);
            }
            assert(wanted.take(i + 1).drop_last() =~= part);
        }
        take_slot(slots, &params.slots[i]);
        i += 1;
    }
    proof {
        assert(wanted.take(i as int) =~= wanted);
        assert(claim_outcome_with(
            rs,
            ss,
            t@,
            wanted,
            now as int,
            rows(tasks@),
            slot_rows(slots@),
            ClaimResult::Claimed,
            None,
        ));
    }
    ClaimOutcome { result: ClaimResult::Claimed, blocked_concurrency: None }
}

/// Claims a pending task, recording the slots it holds. Returns whether it was
/// pending.
fn claim_with_slots(
    tasks: &mut Vec<Task>,
    id: u128,
    keys: &Vec<String>,
    units: Option<i32>,
    now: i64,
) -> (r: bool)
    ensures
        rows(final(tasks)@) == rows(old(tasks)@).map_values(
            claim_with_slots_row(
                id,
                texts(keys@),
                crate::models::opt_int_i32(units),
                now as int,
            ),
        ),
        r == has_status(rows(old(tasks)@), id, StatusKind::Pending),
{
    let ghost before = tasks@;
    let ghost rs = rows(before);
    let ghost step = claim_with_slots_row(
        id,
        texts(keys@),
        crate::models::opt_int_i32(units),
        now as int,
    );
    let mut found: bool = false;
    let mut i: usize = 0;
    while i < tasks.len()
        invariant
            i <= tasks.len(),
            tasks@.len() == before.len(),
            rs == rows(before),
            step == claim_with_slots_row(
                id,
                texts(keys@),
                crate::models::opt_int_i32(units),
                now as int,
            ),
            forall|k: int| 0 <= k < i ==> (#[trigger] tasks@[k])@ == step(before[k]@),
            forall|k: int| i <= k < before.len() ==> (#[trigger] tasks@[k]) == before[k],
            found == exists|k: int|
                0 <= k < i && #[trigger] rs[k].id == id && rs[k].status == StatusKind::Pending,
        decreases tasks.len() - i,
    {
        assert(tasks@[i as int] == before[i as int]);
        assert(rs[i as int] == before[i as int]@);
        if tasks[i].id == id && tasks[i].status == StatusKind::Pending {
            found = true;
            tasks[i].status = StatusKind::Claimed;
            tasks[i].last_updated = now;
            tasks[i].claimed_slot_keys = Some(clone_texts(keys));
            tasks[i].capacity_charge = units;
        }
        i += 1;
    }
    assert(rows(tasks@) =~= rs.map_values(step));
    found
}

/// Atomically evaluates a task's rules and claims it, taking the units of its
/// slots: one per concurrency rule, and the task's outstanding work per capacity
/// rule. See [`claim_outcome`].
pub fn claim_task_with_rules(
    tasks: &mut Vec<Task>,
    slots: &mut Vec<RuleSlot>,
    t: &Task,
    now: i64,
) -> (r: ClaimResult)
    requires
        unique_ids(rows(old(tasks)@)),
        room_for(slot_rows(old(slots)@), t@),
    ensures
        exists|blocked: Option<(Seq<char>, int)>| #[trigger]
            claim_outcome(
                rows(old(tasks)@),
                slot_rows(old(slots)@),
                t@,
                now as int,
                rows(final(tasks)@),
                slot_rows(final(slots)@),
                r,
                blocked,
            ),
{
    let outcome: ClaimOutcome = claim_task_with_rules_detailed(tasks, slots, t, now);
    outcome.result
}

// ---------------------------------------------------------------------------
// Releasing slots
// ---------------------------------------------------------------------------

/// What a task that holds `key` contributes to it: its stored charge for a
/// capacity slot, else one unit.
pub open spec fn unit_of(key: Seq<char>, units: Option<int>) -> int {
    if begins_with(key, "cap:"@) {
        match units {
            Some(c) => c,
            None => 0,
        }
    } else {
        1
    }
}

/// What a row contributes to the slot `key`.
pub open spec fn contribution(r: TaskRow, key: Seq<char>) -> int {
    match r.slot_keys {
        Some(keys) => sum(keys, units_for(key, r.capacity_charge)),
        None => 0,
    }
}

/// What holding a slot contributes to the slot `key`.
pub open spec fn units_for(key: Seq<char>, units: Option<int>) -> spec_fn(Seq<char>) -> int {
    |k: Seq<char>|
        if k == key {
            unit_of(k, units)
        } else {
            0
        }
}

/// What the tasks among `ids` contribute to the slot `key`.
pub open spec fn released_units(ids: Seq<u128>, key: Seq<char>) -> spec_fn(TaskRow) -> int {
    |r: TaskRow|
        if ids.contains(r.id) {
            contribution(r, key)
        } else {
            0
        }
}

/// Whether a task among `ids` holds the slot `key`.
pub open spec fn holds_key(ids: Seq<u128>, key: Seq<char>) -> spec_fn(TaskRow) -> bool {
    |r: TaskRow|
        ids.contains(r.id) && (match r.slot_keys {
            Some(keys) => keys.contains(key),
            None => false,
        })
}

/// A slot after the tasks among `ids` released it, never below zero.
pub open spec fn released_slot(tasks: Seq<TaskRow>, ids: Seq<u128>) -> spec_fn(SlotRow) -> SlotRow {
    |s: SlotRow|
        if count(tasks, holds_key(ids, s.key)) > 0 {
            SlotRow {
                used: crate::db::webhook_execution::at_least_zero(
                    s.used - sum(tasks, released_units(ids, s.key)),
                ),
                ..s
            }
        } else {
            s
        }
}

/// A task that released its slots.
pub open spec fn released_row(ids: Seq<u128>) -> spec_fn(TaskRow) -> TaskRow {
    |r: TaskRow|
        if ids.contains(r.id) && r.slot_keys is Some {
            TaskRow { slot_keys: None, capacity_charge: None, ..r }
        } else {
            r
        }
}

/// No task carries a negative charge.
pub open spec fn charges_ok(tasks: Seq<TaskRow>) -> bool {
    forall|i: int|
        0 <= i < tasks.len() && (#[trigger] tasks[i]).capacity_charge is Some
            ==> tasks[i].capacity_charge->0 >= 0
}

/// What one task contributes to `key`, and whether it holds it.
fn held_units(t: &Task, key: &String) -> (r: (i128, bool))
    requires
        t@.capacity_charge is Some ==> t@.capacity_charge->0 >= 0,
    ensures
        r.0 == contribution(t@, key@),
        r.1 == (match t@.slot_keys {
            Some(keys) => keys.contains(key@),
            None => false,
        }),
        0 <= r.0 <= usize::MAX * (i32::MAX as int),
{
    match &t.claimed_slot_keys {
        Some(keys) => {
            let ghost ks = texts(keys@);
            let ghost f = units_for(key@, t@.capacity_charge);
            let mut total: i128 = 0;
            let mut found: bool = false;
            let mut i: usize = 0;
            while i < keys.len()
                invariant
                    i <= keys.len(),
                    ks == texts(keys@),
                    f == units_for(key@, t@.capacity_charge),
                    t@.capacity_charge is Some ==> t@.capacity_charge->0 >= 0,
                    total == sum(ks.take(i as int), f),
                    0 <= total <= i * (i32::MAX as int),
                    found == exists|k: int| 0 <= k < i && #[trigger] ks[k] == key@,
                decreases keys.len() - i,
            {
                proof {
                    lemma_sum_take(ks, f, i as int);
                    assert(ks[i as int] == keys@[i as int]@);
                    assert((i + 1) * (i32::MAX as int) == i * (i32::MAX as int) + i32::MAX)
                        by (nonlinear_arith);
                    assert(i * (i32::MAX as int) <= usize::MAX * (i32::MAX as int))
                        by (nonlinear_arith)
                        requires
                            i <= usize::MAX,
                    ;
                }
                if keys[i] == *key {
                    found = true;
                    let unit: i32 = if has_prefix(keys[i].as_str(), "cap:") {
                        match t.capacity_charge {
                            Some(c) => c,
                            None => 0,
                        }
                    } else {
                        1
                    };
                    total = total + unit as i128;
                }
                i += 1;
            }
            proof {
                assert(ks.take(i as int) =~= ks);
                assert(i * (i32::MAX as int) <= usize::MAX * (i32::MAX as int))
                    by (nonlinear_arith)
                    requires
                        i <= usize::MAX,
                ;
            }
            (total, found)
        },
        None => (0, false),
    }
}

/// Releases the slots held by the given tasks: each slot's use drops by what
/// they contributed to it (one unit for a `conc:` key, the stored charge for a
/// `cap:` key), never below zero, and the tasks no longer hold any.
///
/// A task that holds no slot changes nothing, so callers pass the ids of every
/// task that left `Claimed` or `Running`; releasing twice releases once.
pub fn release_slots_for_tasks(tasks: &mut Vec<Task>, slots: &mut Vec<RuleSlot>, task_ids: &Vec<u128>)
    requires
        charges_ok(rows(old(tasks)@)),
    ensures
        rows(final(tasks)@) == rows(old(tasks)@).map_values(released_row(task_ids@)),
        slot_rows(final(slots)@) == slot_rows(old(slots)@).map_values(
            released_slot(rows(old(tasks)@), task_ids@),
        ),
{
    let ghost rs = rows(tasks@);
    let ghost before = slots@;
    let ghost ss = slot_rows(before);
    let ghost step = released_slot(rs, task_ids@);
    let mut j: usize = 0;
    while j < slots.len()
        invariant
            j <= slots.len(),
            slots@.len() == before.len(),
            *tasks == *old(tasks),
            rs == rows(tasks@),
            charges_ok(rs),
            ss == slot_rows(before),
            step == released_slot(rs, task_ids@),
            forall|k: int| 0 <= k < j ==> (#[trigger] slots@[k])@ == step(ss[k]),
            forall|k: int| j <= k < before.len() ==> (#[trigger] slots@[k]) == before[k],
        decreases slots.len() - j,
    {
        assert(slots@[j as int] == before[j as int]);
        assert(ss[j as int] == before[j as int]@);
        let (total, found) = count_released(tasks, task_ids, &slots[j].lock_key);
        if found {
            let left: i128 = slots[j].used as i128 - total;
            slots[j].used = if left < 0 {
                0
            } else {
                left as i32
            };
        }
        assert(slots@[j as int]@ == step(ss[j as int]));
        j += 1;
    }
    assert(slot_rows(slots@) =~= ss.map_values(step));
    let ghost held = tasks@;
    let ghost clear = released_row(task_ids@);
    let mut i: usize = 0;
    while i < tasks.len()
        invariant
            i <= tasks.len(),
            tasks@.len() == held.len(),
            clear == released_row(task_ids@),
            forall|k: int| 0 <= k < i ==> (#[trigger] tasks@[k])@ == clear(held[k]@),
            forall|k: int| i <= k < held.len() ==> (#[trigger] tasks@[k]) == held[k],
        decreases tasks.len() - i,
    {
        assert(tasks@[i as int] == held[i as int]);
        if tasks[i].claimed_slot_keys.is_some() && has_id(task_ids, tasks[i].id) {
            tasks[i].claimed_slot_keys = None;
            tasks[i].capacity_charge = None;
        }
        i += 1;
    }
    assert(rows(tasks@) =~= rows(held).map_values(clear));
}

/// More units than any slot counts.
const MANY_UNITS: i128 = 0x1_0000_0000;

/// The units that the tasks among `ids` contribute to `key`, counted up to
/// [`MANY_UNITS`], and whether one of them holds it.
fn count_released(tasks: &Vec<Task>, ids: &Vec<u128>, key: &String) -> (r: (i128, bool))
    requires
        charges_ok(rows(tasks@)),
    ensures
        ({
            let total = sum(rows(tasks@), released_units(ids@, key@));
            r.0 == if total < MANY_UNITS {
                total
            } else {
                MANY_UNITS as int
            }
        }),
        r.1 == (count(rows(tasks@), holds_key(ids@, key@)) > 0),
        0 <= r.0 <= MANY_UNITS,
{
    let ghost rs = rows(tasks@);
    let ghost f = released_units(ids@, key@);
    let ghost p = holds_key(ids@, key@);
    let mut total: i128 = 0;
    let mut found: bool = false;
    let mut i: usize = 0;
    while i < tasks.len()
        invariant
            i <= tasks.len(),
            rs == rows(tasks@),
            charges_ok(rs),
            f == released_units(ids@, key@),
            p == holds_key(ids@, key@),
            sum(rs.take(i as int), f) >= 0,
            total == if sum(rs.take(i as int), f) < MANY_UNITS {
                sum(rs.take(i as int), f)
            } else {
                MANY_UNITS as int
            },
            found == (count(rs.take(i as int), p) > 0),
        decreases tasks.len() - i,
    {
        proof {
            lemma_sum_take(rs, f, i as int);
            crate::tally::lemma_count_take(rs, p, i as int);
            assert(rs[i as int] == tasks@[i as int]@);
            assert(usize::MAX * (i32::MAX as int) <= 0xffff_ffff_ffff_ffff * 0x7fff_ffffint)
                by (nonlinear_arith)
                requires
                    usize::MAX <= 0xffff_ffff_ffff_ffffint,
                    i32::MAX == 0x7fff_ffffint,
            ;
        }
        if has_id(ids, tasks[i].id) {
            let (units, holds) = held_units(&tasks[i], key);
            total = total + units;
            if total > MANY_UNITS {
                total = MANY_UNITS;
            }
            if holds {
                found = true;
            }
        }
        i += 1;
    }
    assert(rs.take(i as int) =~= rs);
    (total, found)
}

} // verus!
