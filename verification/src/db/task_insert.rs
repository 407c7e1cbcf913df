//! Creating the tasks of a request.

use crate::db::task_lifecycle::{action_row, action_rows, insert_actions};
use crate::dtos::{basic, basic_rows, BasicRow, BasicTaskDto, Dependency, NewTaskDto};
use crate::models::{
    opt_int_i32, opt_text, rows, Action, Link, Matcher, MatcherView, NewActionDto, Rules,
    StatusKind, Task, TaskRow, TriggerCondition, TriggerKind,
};
use crate::order::{sort_positions, SortKey};
use crate::rule::{
    extract_metadata_fields, extracted, first_missing, ordered, slot_text, text_of, text_pairs,
};
use crate::store::{Store, Tables};
use crate::tally::{count, lemma_count_take, lemma_filter_take};
use vstd::prelude::*;

verus! {

// ---------------------------------------------------------------------------
// Statement sizes
// ---------------------------------------------------------------------------

/// Bind parameters that one statement may carry.
pub const BIND_BUDGET: usize = 60_000;

/// Bind parameters per inserted task.
pub const TASK_BINDS_PER_ROW: usize = 13;

/// Bind parameters per inserted link.
pub const LINK_BINDS_PER_ROW: usize = 3;

/// Bind parameters per inserted action.
pub const ACTION_BINDS_PER_ROW: usize = 5;

/// The most rows of a multi-row insert: as many as the budget allows, at least
/// one.
pub fn chunk_rows(binds_per_row: usize) -> (r: usize)
    requires
        binds_per_row > 0,
    ensures
        r == if BIND_BUDGET as int / binds_per_row as int == 0 {
            1
        } else {
            BIND_BUDGET as int / binds_per_row as int
        },
        r >= 1,
        binds_per_row <= BIND_BUDGET ==> r * binds_per_row <= BIND_BUDGET,
{
    let n: usize = BIND_BUDGET / binds_per_row;
    proof {
        assert((60_000int / binds_per_row as int) * binds_per_row as int <= 60_000int)
            by (nonlinear_arith)
            requires
                binds_per_row > 0,
        ;
        if n == 0 {
            assert(binds_per_row > 60_000) by (nonlinear_arith)
                requires
                    60_000int / (binds_per_row as int) == 0,
                    binds_per_row > 0,
            ;
        }
    }
    if n == 0 {
        1
    } else {
        n
    }
}

/// Splits `n` rows into consecutive chunks of at most [`chunk_rows`] rows: each
/// chunk is given by its bounds, and together they cover every row once.
pub fn insert_chunks(n: usize, binds_per_row: usize) -> (r: Vec<(usize, usize)>)
    requires
        0 < binds_per_row <= BIND_BUDGET,
    ensures
        n == 0 <==> r@.len() == 0,
        r@.len() > 0 ==> r@[0].0 == 0 && r@.last().1 == n,
        forall|k: int| 0 <= k < r@.len() ==> (#[trigger] r@[k]).0 < r@[k].1 <= n && (r@[k].1
            - r@[k].0) * binds_per_row <= BIND_BUDGET,
        forall|k: int| 0 <= k < r@.len() - 1 ==> (#[trigger] r@[k]).1 == r@[k + 1].0,
{
    let most: usize = chunk_rows(binds_per_row);
    let mut r: Vec<(usize, usize)> = Vec::new();
    let mut from: usize = 0;
    while from < n
        invariant
            from <= n,
            most >= 1,
            most * binds_per_row <= BIND_BUDGET,
            binds_per_row > 0,
            from == 0 <==> r@.len() == 0,
            r@.len() > 0 ==> r@[0].0 == 0 && r@.last().1 == from,
            forall|k: int| 0 <= k < r@.len() ==> (#[trigger] r@[k]).0 < r@[k].1 <= n && (r@[k].1
                - r@[k].0) * binds_per_row <= BIND_BUDGET,
            forall|k: int| 0 <= k < r@.len() - 1 ==> (#[trigger] r@[k]).1 == r@[k + 1].0,
        decreases n - from,
    {
        let to: usize = if n - from > most {
            from + most
        } else {
            n
        };
        proof {
            assert((to - from) * binds_per_row <= most * binds_per_row) by (nonlinear_arith)
                requires
                    0 <= to - from <= most,
                    binds_per_row > 0,
            ;
        }
        r.push((from, to));
        from = to;
    }
    r
}

// ---------------------------------------------------------------------------
// Deduplication
// ---------------------------------------------------------------------------

/// What a dedupe rule looks at: the metadata of the task, or `null` where it has none.
pub open spec fn looked_at(metadata: Option<Seq<char>>) -> Seq<char> {
    match metadata {
        Some(m) => m,
        None => "null"@,
    }
}

/// Whether a dedupe rule can be evaluated: the metadata is there where the rule
/// compares fields, and has all of them.
pub open spec fn applicable(metadata: Option<Seq<char>>) -> spec_fn(Matcher) -> bool {
    |m: Matcher|
        (m@.fields.len() == 0 || metadata is Some) && first_missing(
            looked_at(metadata),
            m@.fields,
        ) is None
}

/// A dedupe rule to evaluate: take its lock, and count the tasks of its kind and status
/// whose metadata contain these values.
#[derive(Debug)]
pub struct DedupeCheck {
    /// Position of the rule.
    pub rule: usize,
    /// The fields that it compares, and their values as JSON.
    pub pattern: Vec<(String, String)>,
    /// What its lock stands for: two checks that may find each other's tasks agree on it.
    pub lock_text: String,
}

/// What is to be done for a rule and this metadata.
pub open spec fn does_check(c: DedupeCheck, m: MatcherView, metadata: Seq<char>) -> bool {
    &&& text_pairs(c.pattern@) == extracted(metadata, ordered(m.fields))
    &&& c.lock_text@ == slot_text(m, metadata)
}

/// The position of the rule of a check.
pub open spec fn rule_position() -> spec_fn(DedupeCheck) -> int {
    |c: DedupeCheck| c.rule as int
}

/// Plans the dedupe check of a task. A rule that cannot be evaluated is skipped:
/// it takes no lock and counts nothing.
pub fn plan_dedupe(rules: &Vec<Matcher>, metadata: &Option<String>) -> (r: Vec<DedupeCheck>)
    ensures
        r@.map_values(rule_position()) == crate::db::webhook_outbox::positions(
            rules@,
            applicable(opt_text(*metadata)),
        ),
        forall|k: int|
            0 <= k < r@.len() ==> (#[trigger] r@[k]).rule < rules@.len() && does_check(
                r@[k],
                rules@[r@[k].rule as int]@,
                looked_at(opt_text(*metadata)),
            ),
{
    let ghost given = opt_text(*metadata);
    let ghost p = applicable(given);
    let mut checks: Vec<DedupeCheck> = Vec::new();
    let text: &str = match metadata {
        Some(m) => m.as_str(),
        None => "null",
    };
    let mut i: usize = 0;
    while i < rules.len()
        invariant
            i <= rules.len(),
            given == opt_text(*metadata),
            p == applicable(given),
            text@ == looked_at(given),
            checks@.map_values(rule_position()) =~= crate::db::webhook_outbox::positions(
                rules@.take(i as int),
                p,
            ),
            forall|k: int|
                0 <= k < checks@.len() ==> (#[trigger] checks@[k]).rule < i && does_check(
                    checks@[k],
                    rules@[checks@[k].rule as int]@,
                    looked_at(given),
                ),
        decreases rules.len() - i,
    {
        proof {
            crate::db::webhook_outbox::lemma_positions_take(rules@, p, i as int);
        }
        let m: &Matcher = &rules[i];
        assert(m@.fields.len() == m.fields@.len());
        if m.fields.len() == 0 || metadata.is_some() {
            if let Ok(pattern) = extract_metadata_fields(m, text) {
                let lock_text: String = text_of(m, &pattern, Ghost(looked_at(given)));
                checks.push(DedupeCheck { rule: i, pattern, lock_text });
            }
        }
        i += 1;
    }
    assert(rules@.take(i as int) =~= rules@);
    checks
}

/// Ascending numbers, each once.
pub open spec fn ascending(s: Seq<i64>) -> bool {
    forall|i: int, j: int| 0 <= i < j < s.len() ==> #[trigger] s[i] < #[trigger] s[j]
}

/// The order in which the locks of a check are taken: ascending, each once, so that two
/// checks with locks in common never wait for each other.
pub fn lock_order(keys: &Vec<i64>) -> (r: Vec<i64>)
    ensures
        ascending(r@),
        forall|x: i64| #[trigger] r@.contains(x) <==> keys@.contains(x),
{
    let ghost up = |k: usize| k as int;
    let mut ranked: Vec<SortKey> = Vec::new();
    let mut i: usize = 0;
    while i < keys.len()
        invariant
            i <= keys@.len(),
            ranked@.len() == i,
            forall|k: int| 0 <= k < i ==> #[trigger] ranked@[k] == (keys@[k] as i128, 0i128, 0u128),
        decreases keys.len() - i,
    {
        ranked.push((keys[i] as i128, 0i128, 0u128));
        i += 1;
    }
    let sorted: Vec<usize> = sort_positions(&ranked);
    proof {
        crate::order::order_sorts(ranked@);
    }
    let ghost o = crate::order::order(ranked@);
    let mut locks: Vec<i64> = Vec::new();
    let mut j: usize = 0;
    while j < sorted.len()
        invariant
            j <= sorted.len(),
            up == (|k: usize| k as int),
            sorted@.map_values(up) == o,
            sorted@.len() == ranked@.len(),
            ranked@.len() == keys@.len(),
            forall|k: int| 0 <= k < sorted@.len() ==> #[trigger] sorted@[k] < keys@.len(),
            forall|k: int|
                0 <= k < keys@.len() ==> #[trigger] ranked@[k] == (keys@[k] as i128, 0i128, 0u128),
            forall|a: int, b: int|
                0 <= a < b < ranked@.len() ==> crate::order::key_le(
                    ranked@[#[trigger] o[a]],
                    ranked@[#[trigger] o[b]],
                ),
            ascending(locks@),
            locks@.len() > 0 ==> j > 0 && locks@.last() == keys@[sorted@[j - 1] as int],
            j > 0 ==> locks@.len() > 0,
            forall|x: i64| #[trigger]
                locks@.contains(x) <==> exists|k: int|
                    0 <= k < j && keys@[#[trigger] sorted@[k] as int] == x,
        decreases sorted.len() - j,
    {
        let key: i64 = keys[sorted[j]];
        let fresh: bool = locks.len() == 0 || locks[locks.len() - 1] != key;
        let ghost before = locks@;
        proof {
            assert(o[j as int] == sorted@.map_values(up)[j as int]);
            if j > 0 {
                assert(o[j - 1] == sorted@.map_values(up)[j - 1]);
                assert(crate::order::key_le(ranked@[o[j - 1]], ranked@[o[j as int]]));
            }
        }
        if fresh {
            locks.push(key);
        }
        proof {
            assert forall|x: i64| #[trigger] locks@.contains(x) <==> exists|k: int|
                0 <= k < j + 1 && keys@[#[trigger] sorted@[k] as int] == x by {
                if fresh {
                    assert(locks@[before.len() as int] == key);
                }
                if before.contains(x) {
                    let w = choose|w: int| 0 <= w < before.len() && before[w] == x;
                    assert(locks@[w] == x);
                    let k = choose|k: int| 0 <= k < j && keys@[#[trigger] sorted@[k] as int] == x;
                    assert(sorted@[k] < keys@.len());
                }
                if locks@.contains(x) && !before.contains(x) {
                    let w = choose|w: int| 0 <= w < locks@.len() && locks@[w] == x;
                    if w < before.len() {
                        assert(before[w] == x);
                    }
                    assert(x == key);
                    assert(sorted@[j as int] < keys@.len());
                }
                if x == key && !fresh {
                    assert(before[before.len() - 1] == key);
                }
                if exists|k: int| 0 <= k < j + 1 && keys@[#[trigger] sorted@[k] as int] == x {
                    let k = choose|k: int|
                        0 <= k < j + 1 && keys@[#[trigger] sorted@[k] as int] == x;
                    if k < j {
                        assert(before.contains(x));
                    }
                }
            }
        }
        j += 1;
    }
    proof {
        assert forall|x: i64| #[trigger] locks@.contains(x) <==> keys@.contains(x) by {
            if locks@.contains(x) {
                let k = choose|k: int| 0 <= k < j && keys@[#[trigger] sorted@[k] as int] == x;
                assert(keys@[sorted@[k] as int] == x);
            }
            if keys@.contains(x) {
                let k = choose|k: int| 0 <= k < keys@.len() && keys@[k] == x;
                assert(o.contains(k));
                let w = choose|w: int| 0 <= w < o.len() && o[w] == k;
                assert(sorted@.map_values(up)[w] == k);
                assert(sorted@[w] == k);
            }
        }
    }
    locks
}

/// Decides a dedupe check: `counts` are the numbers of existing tasks that match
/// each planned rule. The task is created where none matches.
pub fn handle_dedupe(counts: &Vec<i64>) -> (r: bool)
    ensures
        r == forall|i: int| 0 <= i < counts@.len() ==> #[trigger] counts@[i] <= 0,
{
    let mut i: usize = 0;
    while i < counts.len()
        invariant
            i <= counts.len(),
            forall|k: int| 0 <= k < i ==> #[trigger] counts@[k] <= 0,
        decreases counts.len() - i,
    {
        if counts[i] > 0 {
            assert(counts@[i as int] > 0);
            return false;
        }
        i += 1;
    }
    true
}

// ---------------------------------------------------------------------------
// Resolving one task
// ---------------------------------------------------------------------------

/// Which task each local id stands for; a later entry replaces an earlier one.
#[derive(Debug)]
pub struct IdMapping(pub Vec<(String, u128)>);

impl View for IdMapping {
    type V = Seq<(Seq<char>, u128)>;

    open spec fn view(&self) -> Seq<(Seq<char>, u128)> {
        self.0@.map_values(|p: (String, u128)| (p.0@, p.1))
    }
}

/// The task that a local id stands for.
pub open spec fn mapped(m: Seq<(Seq<char>, u128)>, id: Seq<char>) -> Option<u128>
    decreases m.len(),
{
    if m.len() == 0 {
        None
    } else if m.last().0 == id {
        Some(m.last().1)
    } else {
        mapped(m.drop_last(), id)
    }
}

impl IdMapping {
    /// A mapping without entries.
    pub fn new() -> (r: Self)
        ensures
            r@ == Seq::<(Seq<char>, u128)>::empty(),
    {
        let r: IdMapping = IdMapping(Vec::new());
        assert(r@ =~= Seq::empty());
        r
    }

    /// The task that a local id stands for.
    pub fn get(&self, id: &String) -> (r: Option<u128>)
        ensures
            r == mapped(self@, id@),
    {
        let ghost m = self@;
        let mut n: usize = self.0.len();
        assert(m.take(n as int) =~= m);
        while n > 0
            invariant
                n <= self.0@.len(),
                m == self@,
                mapped(m, id@) == mapped(m.take(n as int), id@),
            decreases n,
        {
            assert(m.take(n as int).drop_last() =~= m.take(n - 1));
            assert(m.take(n as int).last() == (self.0@[n - 1].0@, self.0@[n - 1].1));
            if self.0[n - 1].0 == *id {
                return Some(self.0[n - 1].1);
            }
            n -= 1;
        }
        None
    }

    /// Lets a local id stand for a task.
    pub fn insert(&mut self, id: String, task: u128)
        ensures
            final(self)@ == old(self)@.push((id@, task)),
    {
        let ghost before = self@;
        let ghost entry = (id@, task);
        self.0.push((id, task));
        assert(self@ =~= before.push(entry));
    }
}

/// The dependencies that stand for a task.
pub open spec fn known(m: Seq<(Seq<char>, u128)>) -> spec_fn(Dependency) -> bool {
    |d: Dependency| mapped(m, d.id@) is Some
}

/// The dependencies that stand for a task and require its success.
pub open spec fn known_required(m: Seq<(Seq<char>, u128)>) -> spec_fn(Dependency) -> bool {
    |d: Dependency| mapped(m, d.id@) is Some && d.requires_success
}

/// The dependencies of a task to create.
pub open spec fn deps_of(dto: NewTaskDto) -> Seq<Dependency> {
    match dto.dependencies {
        Some(d) => d@,
        None => Seq::empty(),
    }
}

/// The links of a task: one per dependency that stands for a task. A dependency
/// that does not, because that task was skipped, is ignored.
pub open spec fn links_of(deps: Seq<Dependency>, m: Seq<(Seq<char>, u128)>, child: u128) -> Seq<
    Link,
> {
    deps.filter(known(m)).map_values(
        |d: Dependency|
            Link {
                parent_id: mapped(m, d.id@)->0,
                child_id: child,
                requires_success: d.requires_success,
            },
    )
}

/// The row of a task to create.
pub open spec fn new_row(
    dto: NewTaskDto,
    id: u128,
    batch_id: Option<u128>,
    m: Seq<(Seq<char>, u128)>,
    now: int,
) -> TaskRow {
    let waits = count(deps_of(dto), known(m)) as int;
    TaskRow {
        id,
        name: dto.name@,
        kind: dto.kind@,
        status: if waits > 0 {
            StatusKind::Waiting
        } else {
            StatusKind::Pending
        },
        timeout: match dto.timeout {
            Some(t) => t as int,
            None => 60,
        },
        created_at: now,
        started_at: None,
        last_updated: now,
        metadata: match dto.metadata {
            Some(t) => t@,
            None => "null"@,
        },
        ended_at: None,
        rules: match dto.rules {
            Some(r) => r@,
            None => Seq::empty(),
        },
        wait_success: count(deps_of(dto), known_required(m)) as int,
        wait_finished: waits,
        success: 0,
        failures: 0,
        failure_reason: None,
        batch_id,
        expected_count: opt_int_i32(dto.expected_count),
        dead_end_barrier: dto.dead_end_barrier == Some(true),
        priority: match dto.priority {
            Some(p) => p as int,
            None => 0,
        },
        slot_keys: None,
        capacity_charge: None,
    }
}

/// The actions of an optional list.
pub open spec fn list_or_none(o: Option<Vec<NewActionDto>>) -> Seq<NewActionDto> {
    match o {
        Some(v) => v@,
        None => Seq::empty(),
    }
}

/// The actions of a task to create: its start action, then those of a failed and
/// those of a successful end.
pub open spec fn new_actions(dto: NewTaskDto, id: u128) -> Seq<Action> {
    seq![action_row(id, dto.on_start, TriggerKind::Start, TriggerCondition::Success)]
        + action_rows(
        id,
        list_or_none(dto.on_failure),
        TriggerKind::End,
        TriggerCondition::Failure,
    ) + action_rows(
        id,
        list_or_none(dto.on_success),
        TriggerKind::End,
        TriggerCondition::Success,
    )
}

/// A task resolved into the rows to insert.
#[derive(Debug)]
pub struct PreparedTask {
    /// The task row.
    pub task: Task,
    /// Its links.
    pub links: Vec<Link>,
    /// Its actions.
    pub actions: Vec<Action>,
}

/// Resolves a task against the local ids known so far.
pub fn resolve_task(
    dto: NewTaskDto,
    task_id: u128,
    batch_id: Option<u128>,
    id_mapping: &IdMapping,
    now: i64,
) -> (r: PreparedTask)
    requires
        deps_of(dto).len() <= i32::MAX,
    ensures
        r.task@ == new_row(dto, task_id, batch_id, id_mapping@, now as int),
        r.links@ == links_of(deps_of(dto), id_mapping@, task_id),
        r.actions@ == new_actions(dto, task_id),
{
    let ghost m = id_mapping@;
    let ghost all = deps_of(dto);
    let ghost f = |d: Dependency|
        Link {
            parent_id: mapped(m, d.id@)->0,
            child_id: task_id,
            requires_success: d.requires_success,
        };
    let mut links: Vec<Link> = Vec::new();
    let mut ws: i32 = 0;
    let mut wf: i32 = 0;
    if let Some(deps) = &dto.dependencies {
        let mut i: usize = 0;
        proof {
            reveal(Seq::filter);
            assert(links@ =~= all.take(0).filter(known(m)).map_values(f));
        }
        while i < deps.len()
            invariant
                i <= deps.len(),
                all == deps@,
                all.len() <= i32::MAX,
                m == id_mapping@,
                f == (|d: Dependency|
                    Link {
                        parent_id: mapped(m, d.id@)->0,
                        child_id: task_id,
                        requires_success: d.requires_success,
                    }),
                wf == count(all.take(i as int), known(m)),
                ws == count(all.take(i as int), known_required(m)),
                wf <= i,
                ws <= i,
                links@ =~= all.take(i as int).filter(known(m)).map_values(f),
            decreases deps.len() - i,
        {
            proof {
                lemma_count_take(all, known(m), i as int);
                lemma_count_take(all, known_required(m), i as int);
                lemma_filter_take(all, known(m), i as int);
            }
            let d: &Dependency = &deps[i];
            if let Some(parent_id) = id_mapping.get(&d.id) {
                wf += 1;
                if d.requires_success {
                    ws += 1;
                }
                links.push(
                    Link { parent_id, child_id: task_id, requires_success: d.requires_success },
                );
            }
            i += 1;
        }
        assert(all.take(i as int) =~= all);
    } else {
        proof {
            reveal(Seq::filter);
            assert(links@ =~= links_of(all, m, task_id));
        }
    }
    let mut actions: Vec<Action> = Vec::new();
    let ghost start = action_row(
        task_id,
        dto.on_start,
        TriggerKind::Start,
        TriggerCondition::Success,
    );
    actions.push(
        Action {
            id: None,
            task_id,
            kind: dto.on_start.kind,
            params: dto.on_start.params.clone(),
            trigger: TriggerKind::Start,
            condition: TriggerCondition::Success,
            success: None,
        },
    );
    assert(actions@ =~= seq![start]);
    if let Some(v) = &dto.on_failure {
        insert_actions(
            &mut actions,
            task_id,
            v,
            TriggerKind::End,
            TriggerCondition::Failure,
        );
    }
    if let Some(v) = &dto.on_success {
        insert_actions(
            &mut actions,
            task_id,
            v,
            TriggerKind::End,
            TriggerCondition::Success,
        );
    }
    assert(actions@ =~= new_actions(dto, task_id));
    let status: StatusKind = if wf > 0 {
        StatusKind::Waiting
    } else {
        StatusKind::Pending
    };
    let metadata: String = match dto.metadata {
        Some(t) => t,
        None => "null".to_string(),
    };
    let start_condition: Rules = match dto.rules {
        Some(r) => r,
        None => {
            let empty: Rules = Rules(Vec::new());
            assert(empty@ =~= Seq::empty());
            empty
        },
    };
    let timeout: i32 = match dto.timeout {
        Some(t) => t,
        None => 60,
    };
    let dead_end_barrier: bool = match dto.dead_end_barrier {
        Some(b) => b,
        None => false,
    };
    let priority: i32 = match dto.priority {
        Some(p) => p,
        None => 0,
    };
    let task: Task = Task {
        id: task_id,
        name: dto.name,
        kind: dto.kind,
        status,
        timeout,
        created_at: now,
        started_at: None,
        last_updated: now,
        metadata,
        ended_at: None,
        start_condition,
        wait_success: ws,
        wait_finished: wf,
        success: 0,
        failures: 0,
        failure_reason: None,
        batch_id,
        expected_count: dto.expected_count,
        dead_end_barrier,
        priority,
        claimed_slot_keys: None,
        capacity_charge: None,
    };
    PreparedTask { task, links, actions }
}

// ---------------------------------------------------------------------------
// Inserting the tasks of a request
// ---------------------------------------------------------------------------

/// The rows of consecutive tasks that wait for their insert.
#[derive(Debug)]
pub struct PreparedRun {
    /// Task rows.
    pub tasks: Vec<Task>,
    /// Their links.
    pub links: Vec<Link>,
    /// Their actions.
    pub actions: Vec<Action>,
}

/// The tables with the rows of a run at their ends.
pub open spec fn flushed(t: Tables, run: PreparedRun) -> Tables {
    Tables {
        tasks: t.tasks + rows(run.tasks@),
        links: t.links + run.links@,
        actions: t.actions + run.actions@,
        ..t
    }
}

/// The summaries of task rows.
pub open spec fn summaries(tasks: Seq<TaskRow>) -> Seq<BasicRow> {
    tasks.map_values(|r: TaskRow| basic(r))
}

/// Inserts the rows of a run and adds the summaries of its tasks to `results`.
/// The run is empty afterwards.
pub fn flush_run(store: &mut Store, run: &mut PreparedRun, results: &mut Vec<BasicTaskDto>)
    ensures
        final(store)@ == flushed(old(store)@, *old(run)),
        basic_rows(final(results)@) == basic_rows(old(results)@) + summaries(
            rows(old(run).tasks@),
        ),
        final(run).tasks@.len() == 0,
        final(run).links@.len() == 0,
        final(run).actions@.len() == 0,
{
    let ghost before = store@;
    let ghost all = rows(run.tasks@);
    let ghost first = basic_rows(results@);
    let mut i: usize = 0;
    assert(first + summaries(all.take(0)) =~= first);
    while i < run.tasks.len()
        invariant
            i <= run.tasks.len(),
            all == rows(run.tasks@),
            basic_rows(results@) == first + summaries(all.take(i as int)),
        decreases run.tasks.len() - i,
    {
        let ghost mid = results@;
        let dto: BasicTaskDto = BasicTaskDto::of_task(&run.tasks[i]);
        let ghost d = dto@;
        results.push(dto);
        proof {
            assert(all[i as int] == run.tasks@[i as int]@);
            assert(all.take(i + 1) =~= all.take(i as int).push(all[i as int]));
            assert(summaries(all.take(i + 1)) =~= summaries(all.take(i as int)).push(d));
            assert(basic_rows(results@) =~= basic_rows(mid).push(d));
            assert(basic_rows(results@) =~= first + summaries(all.take(i + 1)));
        }
        i += 1;
    }
    assert(all.take(i as int) =~= all);
    let ghost t0 = store.tasks@;
    let ghost t1 = run.tasks@;
    store.tasks.append(&mut run.tasks);
    store.links.append(&mut run.links);
    store.actions.append(&mut run.actions);
    assert(rows(store.tasks@) =~= rows(t0) + rows(t1));
}

/// Whether a task is written: it carries no dedupe rules, or they found no equal
/// task.
pub open spec fn written(dto: NewTaskDto, should_write: bool) -> bool {
    dto.dedupe_strategy is None || should_write
}

/// The tables with one more task.
pub open spec fn with_task(
    t: Tables,
    dto: NewTaskDto,
    id: u128,
    batch_id: Option<u128>,
    m: Seq<(Seq<char>, u128)>,
    now: int,
) -> Tables {
    Tables {
        tasks: t.tasks.push(new_row(dto, id, batch_id, m, now)),
        links: t.links + links_of(deps_of(dto), m, id),
        actions: t.actions + new_actions(dto, id),
        ..t
    }
}

/// What inserting tasks leads to.
#[verifier::ext_equal]
pub struct Inserted {
    pub tables: Tables,
    pub mapping: Seq<(Seq<char>, u128)>,
    pub results: Seq<BasicRow>,
}

/// The insert of `dtos` in order, where the task at `i` gets the id `ids[i]` and
/// its dedupe check answered `verdicts[i]`. A skipped task leaves nothing behind,
/// so that later tasks that depend on it ignore that dependency.
pub open spec fn inserted(
    start: Inserted,
    dtos: Seq<NewTaskDto>,
    ids: Seq<u128>,
    verdicts: Seq<bool>,
    batch_id: Option<u128>,
    now: int,
) -> Inserted
    decreases dtos.len(),
{
    if dtos.len() == 0 {
        start
    } else {
        let n = dtos.len() - 1;
        let s = inserted(start, dtos.drop_last(), ids, verdicts, batch_id, now);
        if written(dtos[n], verdicts[n]) {
            Inserted {
                tables: with_task(s.tables, dtos[n], ids[n], batch_id, s.mapping, now),
                mapping: s.mapping.push((dtos[n].id@, ids[n])),
                results: s.results.push(
                    basic(new_row(dtos[n], ids[n], batch_id, s.mapping, now)),
                ),
            }
        } else {
            s
        }
    }
}

/// No task has more dependencies than a counter holds.
pub open spec fn deps_fit(dtos: Seq<NewTaskDto>) -> bool {
    forall|i: int| 0 <= i < dtos.len() ==> deps_of(#[trigger] dtos[i]).len() <= i32::MAX
}

/// Inserts tasks under the given ids. Tasks without dedupe rules are gathered
/// into runs; a task with dedupe rules ends the run before it, and is a run of
/// its own.
pub fn insert_tasks(
    store: &mut Store,
    id_mapping: &mut IdMapping,
    dtos: Vec<NewTaskDto>,
    ids: &Vec<u128>,
    should_write: &Vec<bool>,
    batch_id: Option<u128>,
    now: i64,
) -> (r: Vec<BasicTaskDto>)
    requires
        ids@.len() == dtos@.len(),
        should_write@.len() == dtos@.len(),
        deps_fit(dtos@),
    ensures
        (Inserted {
            tables: final(store)@,
            mapping: final(id_mapping)@,
            results: basic_rows(r@),
        }) == inserted(
            (Inserted {
                tables: old(store)@,
                mapping: old(id_mapping)@,
                results: Seq::empty(),
            }),
            dtos@,
            ids@,
            should_write@,
            batch_id,
            now as int,
        ),
{
    let n: usize = dtos.len();
    let ghost all = dtos@;
    let ghost start = Inserted {
        tables: store@,
        mapping: id_mapping@,
        results: Seq::empty(),
    };
    let mut results: Vec<BasicTaskDto> = Vec::new();
    let mut run: PreparedRun = PreparedRun {
        tasks: Vec::new(),
        links: Vec::new(),
        actions: Vec::new(),
    };
    let mut i: usize = 0;
    proof {
        assert(all.take(0) =~= Seq::empty());
        assert(flushed(store@, run) =~= store@);
        assert(basic_rows(results@) + summaries(rows(run.tasks@)) =~= Seq::empty());
    }
    for dto in it: dtos
        invariant
            it.seq() == all,
            i == it.index(),
            all.len() == n,
            ids@.len() == all.len(),
            should_write@.len() == all.len(),
            deps_fit(all),
            ({
                let s = inserted(
                    start,
                    all.take(i as int),
                    ids@,
                    should_write@,
                    batch_id,
                    now as int,
                );
                &&& flushed(store@, run) == s.tables
                &&& id_mapping@ == s.mapping
                &&& basic_rows(results@) + summaries(rows(run.tasks@)) == s.results
            }),
    {
        let ghost s = inserted(
            start,
            all.take(i as int),
            ids@,
            should_write@,
            batch_id,
            now as int,
        );
        assert(all.take(i + 1).drop_last() =~= all.take(i as int));
        assert(dto == all[i as int]);
        let deduped: bool = dto.dedupe_strategy.is_some();
        if deduped {
            flush_run(store, &mut run, &mut results);
            proof {
                assert(flushed(store@, run) =~= s.tables);
                assert(basic_rows(results@) + summaries(rows(run.tasks@)) =~= s.results);
            }
        }
        if !deduped || should_write[i] {
            let local_id: String = dto.id.clone();
            let ghost row = new_row(dto, ids@[i as int], batch_id, s.mapping, now as int);
            let ghost before = run;
            let mut p: PreparedTask = resolve_task(dto, ids[i], batch_id, id_mapping, now);
            id_mapping.insert(local_id, ids[i]);
            run.tasks.push(p.task);
            run.links.append(&mut p.links);
            run.actions.append(&mut p.actions);
            proof {
                assert(rows(run.tasks@) =~= rows(before.tasks@).push(row));
                assert(flushed(store@, run) =~= with_task(
                    s.tables,
                    dto,
                    ids@[i as int],
                    batch_id,
                    s.mapping,
                    now as int,
                ));
                assert(summaries(rows(run.tasks@)) =~= summaries(rows(before.tasks@)).push(
                    basic(row),
                ));
                assert(basic_rows(results@) + summaries(rows(run.tasks@)) =~= s.results.push(
                    basic(row),
                ));
            }
            let ghost t = inserted(
                start,
                all.take(i + 1),
                ids@,
                should_write@,
                batch_id,
                now as int,
            );
            if deduped {
                flush_run(store, &mut run, &mut results);
                proof {
                    assert(flushed(store@, run) =~= t.tables);
                    assert(basic_rows(results@) + summaries(rows(run.tasks@)) =~= t.results);
                }
            }
        }
        i += 1;
    }
    assert(all.take(i as int) =~= all);
    flush_run(store, &mut run, &mut results);
    results
}

/// A fresh task id: `uuid::Uuid::now_v7`, as a number. Nothing is claimed of it;
/// it depends on the clock and on chance.
#[verifier::external_body]
fn fresh_id() -> (r: u128) {
    uuid::Uuid::now_v7().as_u128()
}

/// Inserts the tasks of a request under fresh ids. `should_write` holds the
/// answers of the dedupe checks.
pub fn insert_task_batch(
    store: &mut Store,
    id_mapping: &mut IdMapping,
    dtos: Vec<NewTaskDto>,
    should_write: &Vec<bool>,
    batch_id: Option<u128>,
    now: i64,
) -> (r: Vec<BasicTaskDto>)
    requires
        should_write@.len() == dtos@.len(),
        deps_fit(dtos@),
    ensures
        exists|ids: Seq<u128>|
            ids.len() == dtos@.len() && (Inserted {
                tables: final(store)@,
                mapping: final(id_mapping)@,
                results: basic_rows(r@),
            }) == #[trigger] inserted(
                (Inserted {
                    tables: old(store)@,
                    mapping: old(id_mapping)@,
                    results: Seq::empty(),
                }),
                dtos@,
                ids,
                should_write@,
                batch_id,
                now as int,
            ),
{
    let mut ids: Vec<u128> = Vec::new();
    while ids.len() < dtos.len()
        invariant
            ids@.len() <= dtos@.len(),
        decreases dtos@.len() - ids@.len(),
    {
        ids.push(fresh_id());
    }
    insert_tasks(store, id_mapping, dtos, &ids, should_write, batch_id, now)
}

} // verus!
