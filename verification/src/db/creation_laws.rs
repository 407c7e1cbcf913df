//! What a request that creates tasks leaves in the tables.

use crate::db::task_insert::{
    deps_of, inserted, known, links_of, mapped, new_actions, new_row, Inserted,
};
use crate::dtos::{basic, Dependency, NewTaskDto};
use crate::models::{
    Action, ActionKindEnum, Link, NewActionDto, StatusKind, StrategyView, TaskRow,
    TriggerCondition, TriggerKind,
};
use crate::tally::{lemma_count_zero, lemma_filter_has};
use vstd::prelude::*;

verus! {

/// A task of a request is created, unless it has dedupe rules and they found an equal one.
pub open spec fn goes_in(dtos: Seq<NewTaskDto>, verdicts: Seq<bool>, n: int) -> bool {
    dtos[n].dedupe_strategy is None || verdicts[n]
}

/// What a stored action does.
pub open spec fn deed(a: Action) -> (ActionKindEnum, String) {
    (a.kind, a.params)
}

/// What an action of a request asks for.
pub open spec fn wish(a: NewActionDto) -> (ActionKindEnum, String) {
    (a.kind, a.params)
}

/// The actions of a task for an occasion, in order.
pub open spec fn actions_on(
    actions: Seq<Action>,
    task: u128,
    trigger: TriggerKind,
    condition: TriggerCondition,
) -> Seq<(ActionKindEnum, String)> {
    actions.filter(
        |a: Action| a.task_id == task && a.trigger == trigger && a.condition == condition,
    ).map_values(|a: Action| deed(a))
}

/// What a request asks for on an occasion.
pub open spec fn asked_on(
    dto: NewTaskDto,
    trigger: TriggerKind,
    condition: TriggerCondition,
) -> Seq<(ActionKindEnum, String)> {
    match (trigger, condition) {
        (TriggerKind::Start, TriggerCondition::Success) => seq![wish(dto.on_start)],
        (TriggerKind::End, TriggerCondition::Failure) => match dto.on_failure {
            Some(v) => v@.map_values(|a: NewActionDto| wish(a)),
            None => Seq::empty(),
        },
        (TriggerKind::End, TriggerCondition::Success) => match dto.on_success {
            Some(v) => v@.map_values(|a: NewActionDto| wish(a)),
            None => Seq::empty(),
        },
        _ => Seq::empty(),
    }
}

proof fn lemma_all<A>(s: Seq<A>, p: spec_fn(A) -> bool)
    ensures
        (forall|i: int| 0 <= i < s.len() ==> p(#[trigger] s[i])) ==> s.filter(p) == s,
        (forall|i: int| 0 <= i < s.len() ==> !p(#[trigger] s[i])) ==> s.filter(p) == Seq::<
            A,
        >::empty(),
    decreases s.len(),
{
    reveal(Seq::filter);
    if s.len() > 0 {
        let init = s.drop_last();
        lemma_all(init, p);
        assert(s[s.len() - 1] == s.last());
        if forall|i: int| 0 <= i < s.len() ==> p(#[trigger] s[i]) {
            assert forall|i: int| 0 <= i < init.len() implies p(#[trigger] init[i]) by {
                assert(init[i] == s[i]);
            }
            assert(s.filter(p) =~= s);
        }
        if forall|i: int| 0 <= i < s.len() ==> !p(#[trigger] s[i]) {
            assert forall|i: int| 0 <= i < init.len() implies !p(#[trigger] init[i]) by {
                assert(init[i] == s[i]);
            }
        }
    } else {
        assert(s.filter(p) =~= s);
    }
}

/// Actions that are all for one occasion.
proof fn lemma_uniform(
    s: Seq<Action>,
    id: u128,
    t0: TriggerKind,
    c0: TriggerCondition,
    task: u128,
    trigger: TriggerKind,
    condition: TriggerCondition,
)
    requires
        forall|i: int|
            0 <= i < s.len() ==> (#[trigger] s[i]).task_id == id && s[i].trigger == t0
                && s[i].condition == c0,
    ensures
        actions_on(s, task, trigger, condition) == if task == id && trigger == t0 && condition
            == c0 {
            s.map_values(|a: Action| deed(a))
        } else {
            Seq::empty()
        },
{
    let p = |a: Action| a.task_id == task && a.trigger == trigger && a.condition == condition;
    lemma_all(s, p);
    if task == id && trigger == t0 && condition == c0 {
        assert(s.filter(p) == s);
    } else {
        assert(s.filter(p) == Seq::<Action>::empty());
        assert(actions_on(s, task, trigger, condition) =~= Seq::empty());
    }
}

proof fn lemma_actions_add(
    a: Seq<Action>,
    b: Seq<Action>,
    task: u128,
    trigger: TriggerKind,
    condition: TriggerCondition,
)
    ensures
        actions_on(a + b, task, trigger, condition) == actions_on(a, task, trigger, condition)
            + actions_on(b, task, trigger, condition),
{
    let p = |a: Action| a.task_id == task && a.trigger == trigger && a.condition == condition;
    Seq::filter_distributes_over_add(a, b, p);
    assert(actions_on(a + b, task, trigger, condition) =~= actions_on(a, task, trigger, condition)
        + actions_on(b, task, trigger, condition));
}

proof fn lemma_new_actions(
    dto: NewTaskDto,
    id: u128,
    task: u128,
    trigger: TriggerKind,
    condition: TriggerCondition,
)
    ensures
        actions_on(new_actions(dto, id), task, trigger, condition) == if task == id {
            asked_on(dto, trigger, condition)
        } else {
            Seq::empty()
        },
{
    let all = new_actions(dto, id);
    let nf: int = match dto.on_failure {
        Some(v) => v@.len() as int,
        None => 0,
    };
    let ns: int = match dto.on_success {
        Some(v) => v@.len() as int,
        None => 0,
    };
    let a = all.subrange(0, 1);
    let b = all.subrange(1, 1 + nf);
    let c = all.subrange(1 + nf, 1 + nf + ns);
    assert(all =~= a + b + c);
    lemma_actions_add(a + b, c, task, trigger, condition);
    lemma_actions_add(a, b, task, trigger, condition);
    lemma_uniform(a, id, TriggerKind::Start, TriggerCondition::Success, task, trigger, condition);
    lemma_uniform(b, id, TriggerKind::End, TriggerCondition::Failure, task, trigger, condition);
    lemma_uniform(c, id, TriggerKind::End, TriggerCondition::Success, task, trigger, condition);
    let f = |a: Action| deed(a);
    assert(a.map_values(f) =~= asked_on(dto, TriggerKind::Start, TriggerCondition::Success));
    assert(b.map_values(f) =~= asked_on(dto, TriggerKind::End, TriggerCondition::Failure));
    assert(c.map_values(f) =~= asked_on(dto, TriggerKind::End, TriggerCondition::Success));
    assert(actions_on(all, task, trigger, condition) =~= if task == id {
        asked_on(dto, trigger, condition)
    } else {
        Seq::empty()
    });
}

proof fn lemma_prefix(
    start: Inserted,
    dtos: Seq<NewTaskDto>,
    ids: Seq<u128>,
    verdicts: Seq<bool>,
    batch_id: Option<u128>,
    now: int,
    k: int,
)
    requires
        0 <= k < dtos.len(),
    ensures
        ({
            let s = inserted(start, dtos.take(k), ids, verdicts, batch_id, now);
            let e = inserted(start, dtos.take(k + 1), ids, verdicts, batch_id, now);
            if goes_in(dtos, verdicts, k) {
                &&& e.tables.tasks == s.tables.tasks.push(
                    new_row(dtos[k], ids[k], batch_id, s.mapping, now),
                )
                &&& e.tables.links == s.tables.links + links_of(
                    deps_of(dtos[k]),
                    s.mapping,
                    ids[k],
                )
                &&& e.tables.actions == s.tables.actions + new_actions(dtos[k], ids[k])
                &&& e.mapping == s.mapping.push((dtos[k].id@, ids[k]))
                &&& e.results == s.results.push(
                    basic(new_row(dtos[k], ids[k], batch_id, s.mapping, now)),
                )
            } else {
                e == s
            }
        }),
{
    assert(dtos.take(k + 1).drop_last() =~= dtos.take(k));
    assert(dtos.take(k + 1).last() == dtos[k]);
}

proof fn lemma_actions_stored(
    start: Inserted,
    dtos: Seq<NewTaskDto>,
    ids: Seq<u128>,
    verdicts: Seq<bool>,
    batch_id: Option<u128>,
    now: int,
    n: int,
    k: int,
    trigger: TriggerKind,
    condition: TriggerCondition,
)
    requires
        ids.len() == dtos.len(),
        ids.no_duplicates(),
        0 <= n < dtos.len(),
        0 <= k <= dtos.len(),
        forall|i: int|
            0 <= i < start.tables.actions.len() ==> (#[trigger] start.tables.actions[i]).task_id
                != ids[n],
    ensures
        actions_on(
            inserted(start, dtos.take(k), ids, verdicts, batch_id, now).tables.actions,
            ids[n],
            trigger,
            condition,
        ) == if n < k && goes_in(dtos, verdicts, n) {
            asked_on(dtos[n], trigger, condition)
        } else {
            Seq::empty()
        },
    decreases k,
{
    let p = |a: Action| a.task_id == ids[n] && a.trigger == trigger && a.condition == condition;
    if k == 0 {
        assert(dtos.take(0) =~= Seq::empty());
        lemma_all(start.tables.actions, p);
        assert(actions_on(start.tables.actions, ids[n], trigger, condition) =~= Seq::empty());
    } else {
        lemma_actions_stored(
            start,
            dtos,
            ids,
            verdicts,
            batch_id,
            now,
            n,
            k - 1,
            trigger,
            condition,
        );
        lemma_prefix(start, dtos, ids, verdicts, batch_id, now, k - 1);
        if goes_in(dtos, verdicts, k - 1) {
            let s = inserted(start, dtos.take(k - 1), ids, verdicts, batch_id, now).tables.actions;
            let more = new_actions(dtos[k - 1], ids[k - 1]);
            lemma_actions_add(s, more, ids[n], trigger, condition);
            lemma_new_actions(dtos[k - 1], ids[k - 1], ids[n], trigger, condition);
            if k - 1 != n {
                assert(ids[k - 1] != ids[n]);
            }
            assert(actions_on(s + more, ids[n], trigger, condition) =~= if n < k && goes_in(
                dtos,
                verdicts,
                n,
            ) {
                asked_on(dtos[n], trigger, condition)
            } else {
                Seq::empty()
            });
        }
    }
}

/// A created task has exactly the actions that the request gave it, each for its occasion
/// and in order: the one to start it with, those for a failed end, and those for a
/// successful end. A task that is not created has none.
pub proof fn actions_keep_their_occasion(
    start: Inserted,
    dtos: Seq<NewTaskDto>,
    ids: Seq<u128>,
    verdicts: Seq<bool>,
    batch_id: Option<u128>,
    now: int,
    n: int,
    trigger: TriggerKind,
    condition: TriggerCondition,
)
    requires
        ids.len() == dtos.len(),
        ids.no_duplicates(),
        0 <= n < dtos.len(),
        forall|i: int|
            0 <= i < start.tables.actions.len() ==> (#[trigger] start.tables.actions[i]).task_id
                != ids[n],
    ensures
        actions_on(
            inserted(start, dtos, ids, verdicts, batch_id, now).tables.actions,
            ids[n],
            trigger,
            condition,
        ) == if goes_in(dtos, verdicts, n) {
            asked_on(dtos[n], trigger, condition)
        } else {
            Seq::empty()
        },
{
    assert(dtos.take(dtos.len() as int) =~= dtos);
    lemma_actions_stored(
        start,
        dtos,
        ids,
        verdicts,
        batch_id,
        now,
        n,
        dtos.len() as int,
        trigger,
        condition,
    );
}

/// The task of a request that a local id means, seen from task `n`: the last one before it
/// that is created and has that local id.
pub open spec fn means(
    dtos: Seq<NewTaskDto>,
    verdicts: Seq<bool>,
    n: int,
    local: Seq<char>,
    m: int,
) -> bool {
    &&& 0 <= m < n
    &&& goes_in(dtos, verdicts, m)
    &&& dtos[m].id@ == local
    &&& forall|q: int|
        m < q < n && #[trigger] goes_in(dtos, verdicts, q) ==> dtos[q].id@ != local
}

proof fn lemma_mapping(
    start: Inserted,
    dtos: Seq<NewTaskDto>,
    ids: Seq<u128>,
    verdicts: Seq<bool>,
    batch_id: Option<u128>,
    now: int,
    k: int,
    local: Seq<char>,
)
    requires
        ids.len() == dtos.len(),
        0 <= k <= dtos.len(),
        start.mapping.len() == 0,
    ensures
        ({
            let m = inserted(start, dtos.take(k), ids, verdicts, batch_id, now).mapping;
            match mapped(m, local) {
                Some(x) => exists|j: int| #[trigger]
                    means(dtos, verdicts, k, local, j) && ids[j] == x,
                None => forall|j: int| !#[trigger] means(dtos, verdicts, k, local, j),
            }
        }),
    decreases k,
{
    if k == 0 {
        assert(dtos.take(0) =~= Seq::empty());
        assert(start.mapping =~= Seq::empty());
    } else {
        lemma_mapping(start, dtos, ids, verdicts, batch_id, now, k - 1, local);
        lemma_prefix(start, dtos, ids, verdicts, batch_id, now, k - 1);
        let s = inserted(start, dtos.take(k - 1), ids, verdicts, batch_id, now).mapping;
        let e = inserted(start, dtos.take(k), ids, verdicts, batch_id, now).mapping;
        if goes_in(dtos, verdicts, k - 1) && dtos[k - 1].id@ == local {
            assert(e.last().0 == local);
            assert(means(dtos, verdicts, k, local, k - 1));
        } else {
            if goes_in(dtos, verdicts, k - 1) {
                assert(e.drop_last() =~= s);
            }
            assert(mapped(e, local) == mapped(s, local));
            assert forall|j: int| #[trigger] means(dtos, verdicts, k, local, j) <==> means(
                dtos,
                verdicts,
                k - 1,
                local,
                j,
            ) by {
                if means(dtos, verdicts, k - 1, local, j) {
                    assert forall|q: int| j < q < k && #[trigger] goes_in(
                        dtos,
                        verdicts,
                        q,
                    ) implies dtos[q].id@ != local by {}
                }
                if means(dtos, verdicts, k, local, j) {
                    assert(j != k - 1);
                }
            }
            if mapped(s, local) is Some {
                let j = choose|j: int| #[trigger]
                    means(dtos, verdicts, k - 1, local, j) && ids[j] == mapped(s, local)->0;
                assert(means(dtos, verdicts, k, local, j));
            }
        }
    }
}

/// A link that a dependency of task `n` asks for.
pub open spec fn asked_link(
    dtos: Seq<NewTaskDto>,
    ids: Seq<u128>,
    verdicts: Seq<bool>,
    n: int,
    d: Dependency,
    m: int,
    l: Link,
) -> bool {
    &&& means(dtos, verdicts, n, d.id@, m)
    &&& l == Link { parent_id: ids[m], child_id: ids[n], requires_success: d.requires_success }
}

proof fn lemma_own_links(
    start: Inserted,
    dtos: Seq<NewTaskDto>,
    ids: Seq<u128>,
    verdicts: Seq<bool>,
    batch_id: Option<u128>,
    now: int,
    n: int,
    l: Link,
)
    requires
        ids.len() == dtos.len(),
        0 <= n < dtos.len(),
        start.mapping.len() == 0,
    ensures
        ({
            let m = inserted(start, dtos.take(n), ids, verdicts, batch_id, now).mapping;
            links_of(deps_of(dtos[n]), m, ids[n]).contains(l) <==> exists|j: int, q: int|
                0 <= j < deps_of(dtos[n]).len() && #[trigger] asked_link(
                    dtos,
                    ids,
                    verdicts,
                    n,
                    deps_of(dtos[n])[j],
                    q,
                    l,
                )
        }),
{
    let m = inserted(start, dtos.take(n), ids, verdicts, batch_id, now).mapping;
    let deps = deps_of(dtos[n]);
    let sel = deps.filter(known(m));
    let own = links_of(deps, m, ids[n]);
    if own.contains(l) {
        let k = choose|k: int| 0 <= k < own.len() && own[k] == l;
        let d = sel[k];
        assert(sel.contains(d));
        lemma_filter_has(deps, known(m), d);
        let j = choose|j: int| 0 <= j < deps.len() && deps[j] == d;
        lemma_mapping(start, dtos, ids, verdicts, batch_id, now, n, d.id@);
        let q = choose|q: int| #[trigger]
            means(dtos, verdicts, n, d.id@, q) && ids[q] == mapped(m, d.id@)->0;
        assert(asked_link(dtos, ids, verdicts, n, deps[j], q, l));
    }
    if exists|j: int, q: int|
        0 <= j < deps.len() && #[trigger] asked_link(dtos, ids, verdicts, n, deps[j], q, l) {
        let (j, q) = choose|j: int, q: int|
            0 <= j < deps.len() && #[trigger] asked_link(dtos, ids, verdicts, n, deps[j], q, l);
        let d = deps[j];
        lemma_mapping(start, dtos, ids, verdicts, batch_id, now, n, d.id@);
        assert(means(dtos, verdicts, n, d.id@, q));
        let w = choose|w: int| #[trigger]
            means(dtos, verdicts, n, d.id@, w) && ids[w] == mapped(m, d.id@)->0;
        assert(w == q) by {
            if w < q {
                assert(goes_in(dtos, verdicts, q));
            } else if q < w {
                assert(goes_in(dtos, verdicts, w));
            }
        }
        assert(deps.contains(d));
        lemma_filter_has(deps, known(m), d);
        let k = choose|k: int| 0 <= k < sel.len() && sel[k] == d;
        assert(own[k] == l);
    }
}

proof fn lemma_links_stored(
    start: Inserted,
    dtos: Seq<NewTaskDto>,
    ids: Seq<u128>,
    verdicts: Seq<bool>,
    batch_id: Option<u128>,
    now: int,
    n: int,
    k: int,
    l: Link,
)
    requires
        ids.len() == dtos.len(),
        ids.no_duplicates(),
        0 <= n < dtos.len(),
        0 <= k <= dtos.len(),
        start.mapping.len() == 0,
        l.child_id == ids[n],
        !start.tables.links.contains(l),
    ensures
        inserted(start, dtos.take(k), ids, verdicts, batch_id, now).tables.links.contains(l) <==> n
            < k && goes_in(dtos, verdicts, n) && exists|j: int, q: int|
            0 <= j < deps_of(dtos[n]).len() && #[trigger] asked_link(
                dtos,
                ids,
                verdicts,
                n,
                deps_of(dtos[n])[j],
                q,
                l,
            ),
    decreases k,
{
    if k == 0 {
        assert(dtos.take(0) =~= Seq::empty());
    } else {
        lemma_links_stored(start, dtos, ids, verdicts, batch_id, now, n, k - 1, l);
        lemma_prefix(start, dtos, ids, verdicts, batch_id, now, k - 1);
        if goes_in(dtos, verdicts, k - 1) {
            let s = inserted(start, dtos.take(k - 1), ids, verdicts, batch_id, now);
            let more = links_of(deps_of(dtos[k - 1]), s.mapping, ids[k - 1]);
            let a = s.tables.links;
            assert((a + more).contains(l) <==> a.contains(l) || more.contains(l)) by {
                if a.contains(l) {
                    let i = choose|i: int| 0 <= i < a.len() && a[i] == l;
                    assert((a + more)[i] == l);
                }
                if more.contains(l) {
                    let i = choose|i: int| 0 <= i < more.len() && more[i] == l;
                    assert((a + more)[a.len() + i] == l);
                }
            }
            if k - 1 == n {
                lemma_own_links(start, dtos, ids, verdicts, batch_id, now, n, l);
            } else {
                assert(ids[k - 1] != ids[n]);
                if more.contains(l) {
                    let i = choose|i: int| 0 <= i < more.len() && more[i] == l;
                    assert(more[i].child_id == ids[k - 1]);
                }
            }
        }
    }
}

/// The links into a created task are those that its dependencies ask for: one from the
/// task that each local id means, which has to succeed where the dependency says so. A
/// dependency on a task that was not created is left out.
pub proof fn links_are_the_dependencies(
    start: Inserted,
    dtos: Seq<NewTaskDto>,
    ids: Seq<u128>,
    verdicts: Seq<bool>,
    batch_id: Option<u128>,
    now: int,
    n: int,
    l: Link,
)
    requires
        ids.len() == dtos.len(),
        ids.no_duplicates(),
        0 <= n < dtos.len(),
        start.mapping.len() == 0,
        l.child_id == ids[n],
        !start.tables.links.contains(l),
    ensures
        inserted(start, dtos, ids, verdicts, batch_id, now).tables.links.contains(l) <==> goes_in(
            dtos,
            verdicts,
            n,
        ) && exists|j: int, q: int|
            0 <= j < deps_of(dtos[n]).len() && #[trigger] asked_link(
                dtos,
                ids,
                verdicts,
                n,
                deps_of(dtos[n])[j],
                q,
                l,
            ),
{
    assert(dtos.take(dtos.len() as int) =~= dtos);
    lemma_links_stored(
        start,
        dtos,
        ids,
        verdicts,
        batch_id,
        now,
        n,
        dtos.len() as int,
        l,
    );
}

/// A row holds what a request says of a task, and the defaults for what it leaves out: a
/// minute to be idle, no priority, no rules. Nothing has happened to it yet.
pub open spec fn as_asked(dto: NewTaskDto, batch_id: Option<u128>, now: int, r: TaskRow) -> bool {
    &&& r.name == dto.name@
    &&& r.kind == dto.kind@
    &&& dto.timeout matches Some(t) ==> r.timeout == t
    &&& dto.timeout is None ==> r.timeout == 60
    &&& dto.metadata matches Some(t) ==> r.metadata == t@
    &&& dto.metadata is None ==> r.metadata == "null"@
    &&& dto.rules matches Some(v) ==> r.rules == v@
    &&& dto.rules is None ==> r.rules == Seq::<StrategyView>::empty()
    &&& dto.expected_count matches Some(c) ==> r.expected_count == Some(c as int)
    &&& dto.expected_count is None ==> r.expected_count is None
    &&& dto.priority matches Some(p) ==> r.priority == p
    &&& dto.priority is None ==> r.priority == 0
    &&& r.dead_end_barrier <==> dto.dead_end_barrier == Some(true)
    &&& r.batch_id == batch_id
    &&& r.created_at == now
    &&& r.last_updated == now
    &&& r.started_at is None
    &&& r.ended_at is None
    &&& r.failure_reason is None
    &&& r.success == 0
    &&& r.failures == 0
    &&& r.slot_keys is None
    &&& r.capacity_charge is None
}

/// A task waits if one of its dependencies means a task.
pub open spec fn depends(dtos: Seq<NewTaskDto>, verdicts: Seq<bool>, n: int) -> bool {
    exists|j: int, m: int|
        0 <= j < deps_of(dtos[n]).len() && #[trigger] means(
            dtos,
            verdicts,
            n,
            deps_of(dtos[n])[j].id@,
            m,
        )
}

/// A created task is the one that was asked for, under its id, and waits exactly where one
/// of its dependencies means a task. A task that is not created is not there, and the
/// answer lists the created ones in order.
pub proof fn tasks_are_as_asked(
    start: Inserted,
    dtos: Seq<NewTaskDto>,
    ids: Seq<u128>,
    verdicts: Seq<bool>,
    batch_id: Option<u128>,
    now: int,
    n: int,
)
    requires
        ids.len() == dtos.len(),
        ids.no_duplicates(),
        0 <= n < dtos.len(),
        start.mapping.len() == 0,
        forall|i: int|
            0 <= i < start.tables.tasks.len() ==> (#[trigger] start.tables.tasks[i]).id != ids[n],
    ensures
        ({
            let e = inserted(start, dtos, ids, verdicts, batch_id, now);
            &&& goes_in(dtos, verdicts, n) <==> exists|i: int|
                0 <= i < e.tables.tasks.len() && (#[trigger] e.tables.tasks[i]).id == ids[n]
            &&& forall|i: int|
                0 <= i < e.tables.tasks.len() && (#[trigger] e.tables.tasks[i]).id == ids[n] ==> {
                    &&& as_asked(dtos[n], batch_id, now, e.tables.tasks[i])
                    &&& e.tables.tasks[i].status == if depends(dtos, verdicts, n) {
                        StatusKind::Waiting
                    } else {
                        StatusKind::Pending
                    }
                }
            &&& forall|i: int|
                0 <= i < start.tables.tasks.len() ==> (#[trigger] e.tables.tasks[i])
                    == start.tables.tasks[i]
        }),
{
    assert(dtos.take(dtos.len() as int) =~= dtos);
    lemma_task_stored(start, dtos, ids, verdicts, batch_id, now, n, dtos.len() as int);
}

proof fn lemma_task_stored(
    start: Inserted,
    dtos: Seq<NewTaskDto>,
    ids: Seq<u128>,
    verdicts: Seq<bool>,
    batch_id: Option<u128>,
    now: int,
    n: int,
    k: int,
)
    requires
        ids.len() == dtos.len(),
        ids.no_duplicates(),
        0 <= n < dtos.len(),
        0 <= k <= dtos.len(),
        start.mapping.len() == 0,
        forall|i: int|
            0 <= i < start.tables.tasks.len() ==> (#[trigger] start.tables.tasks[i]).id != ids[n],
    ensures
        ({
            let e = inserted(start, dtos.take(k), ids, verdicts, batch_id, now).tables.tasks;
            &&& e.len() >= start.tables.tasks.len()
            &&& (n < k && goes_in(dtos, verdicts, n)) <==> exists|i: int|
                0 <= i < e.len() && (#[trigger] e[i]).id == ids[n]
            &&& forall|i: int|
                0 <= i < e.len() && (#[trigger] e[i]).id == ids[n] ==> {
                    &&& as_asked(dtos[n], batch_id, now, e[i])
                    &&& e[i].status == if depends(dtos, verdicts, n) {
                        StatusKind::Waiting
                    } else {
                        StatusKind::Pending
                    }
                }
            &&& forall|i: int|
                0 <= i < start.tables.tasks.len() ==> (#[trigger] e[i]) == start.tables.tasks[i]
        }),
    decreases k,
{
    if k == 0 {
        assert(dtos.take(0) =~= Seq::empty());
    } else {
        lemma_task_stored(start, dtos, ids, verdicts, batch_id, now, n, k - 1);
        lemma_prefix(start, dtos, ids, verdicts, batch_id, now, k - 1);
        let s = inserted(start, dtos.take(k - 1), ids, verdicts, batch_id, now);
        let e = inserted(start, dtos.take(k), ids, verdicts, batch_id, now).tables.tasks;
        if goes_in(dtos, verdicts, k - 1) {
            let last = e.len() - 1;
            assert(e[last].id == ids[k - 1]);
            assert forall|i: int| 0 <= i < last implies (#[trigger] e[i])
                == s.tables.tasks[i] by {}
            if k - 1 == n {
                let m = s.mapping;
                let deps = deps_of(dtos[n]);
                lemma_count_zero(deps, known(m));
                assert(depends(dtos, verdicts, n) <==> exists|j: int|
                    0 <= j < deps.len() && #[trigger] known(m)(deps[j])) by {
                    if depends(dtos, verdicts, n) {
                        let (j, q) = choose|j: int, q: int|
                            0 <= j < deps.len() && #[trigger] means(
                                dtos,
                                verdicts,
                                n,
                                deps[j].id@,
                                q,
                            );
                        lemma_mapping(start, dtos, ids, verdicts, batch_id, now, n, deps[j].id@);
                        assert(known(m)(deps[j]));
                    }
                    if exists|j: int| 0 <= j < deps.len() && #[trigger] known(m)(deps[j]) {
                        let j = choose|j: int| 0 <= j < deps.len() && #[trigger] known(m)(deps[j]);
                        lemma_mapping(start, dtos, ids, verdicts, batch_id, now, n, deps[j].id@);
                    }
                }
                assert(as_asked(dtos[n], batch_id, now, e[last]));
            } else {
                assert(ids[k - 1] != ids[n]);
                if exists|i: int|
                    0 <= i < s.tables.tasks.len() && (#[trigger] s.tables.tasks[i]).id == ids[n] {
                    let i = choose|i: int|
                        0 <= i < s.tables.tasks.len() && (#[trigger] s.tables.tasks[i]).id
                            == ids[n];
                    assert(e[i].id == ids[n]);
                }
            }
        }
    }
}

} // verus!
