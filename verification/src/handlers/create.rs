//! Requests that create tasks.

use crate::action::WebhookParams;
use crate::config::SecurityConfig;
use crate::db::task_insert::{
    deps_fit, insert_task_batch, inserted, new_row, with_task, written, IdMapping, Inserted,
};
use crate::db::webhook_execution::{
    init_batch_remaining, insert_batch, registered_batch, signalled, with_remaining,
};
use crate::dtos::{basic, basic_rows, BasicTaskDto, NewTaskDto};
use crate::handlers::{no_nudges, Nudges};
use crate::models::{rows, texts, Batch, NewActionDto, OnComplete, Task, TaskRow};
use crate::store::{Store, Tables};
use crate::tally::{count, lemma_count_take};
use crate::text::{decimal, to_decimal};
use crate::validation::{params_refusal, validate_action_params};
use vstd::prelude::*;

verus! {

/// The body of a request that creates tasks: a list of tasks, or an object with
/// what concerns the batch as a whole.
#[derive(Debug)]
pub enum CreateTaskBody {
    /// A list of tasks.
    Tasks(Vec<NewTaskDto>),
    /// A batch.
    Batch(BatchParts),
}

/// The parts of a request that creates tasks.
#[derive(Debug)]
pub struct BatchParts {
    /// The tasks.
    pub tasks: Vec<NewTaskDto>,
    /// Actions to execute when the batch is complete.
    pub on_batch_complete: Option<Vec<NewActionDto>>,
    /// Label of the batch.
    pub scope: Option<String>,
    /// Metadata of the batch, as JSON text.
    pub metadata: Option<String>,
}

impl CreateTaskBody {
    /// The parts of the request. A list of tasks has nothing for the batch.
    pub fn into_parts(self) -> (r: BatchParts)
        ensures
            match self {
                CreateTaskBody::Tasks(v) => r == (BatchParts {
                    tasks: v,
                    on_batch_complete: None,
                    scope: None,
                    metadata: None,
                }),
                CreateTaskBody::Batch(p) => r == p,
            },
    {
        match self {
            CreateTaskBody::Tasks(v) => BatchParts {
                tasks: v,
                on_batch_complete: None,
                scope: None,
                metadata: None,
            },
            CreateTaskBody::Batch(p) => p,
        }
    }
}

// ---------------------------------------------------------------------------
// Checks
// ---------------------------------------------------------------------------

/// The message for too many actions.
pub open spec fn too_many_message(most: nat, given: nat) -> Seq<char> {
    "on_batch_complete cannot exceed "@ + decimal(most) + " actions (received "@ + decimal(given)
        + ")"@
}

/// The message for an action that is refused.
pub open spec fn bad_action_message(i: nat, e: Seq<char>) -> Seq<char> {
    "on_batch_complete["@ + decimal(i) + "].params: "@ + e
}

/// The message for the first refused action from position `i` on.
pub open spec fn first_refused(
    actions: Seq<Result<WebhookParams, String>>,
    config: SecurityConfig,
    i: nat,
) -> Option<Seq<char>>
    decreases actions.len() - i,
{
    if i >= actions.len() {
        None
    } else {
        match params_refusal(actions[i as int], config) {
            Some(e) => Some(bad_action_message(i, e)),
            None => first_refused(actions, config, i + 1),
        }
    }
}

/// Why the actions of a batch are refused, if they are.
pub open spec fn actions_refusal(
    actions: Seq<Result<WebhookParams, String>>,
    most: nat,
    config: SecurityConfig,
) -> Option<Seq<char>> {
    if actions.len() > most {
        Some(too_many_message(most, actions.len()))
    } else {
        first_refused(actions, config, 0)
    }
}

/// Checks the actions of a batch, given the outcomes of parsing their parameters.
pub fn check_batch_actions(
    actions: &Vec<Result<WebhookParams, String>>,
    max_actions: usize,
    config: &SecurityConfig,
) -> (r: Result<(), String>)
    ensures
        match actions_refusal(actions@, max_actions as nat, *config) {
            None => r is Ok,
            Some(m) => r matches Err(e) && e@ == m,
        },
{
    if actions.len() > max_actions {
        return Err(
            "on_batch_complete cannot exceed ".to_string().concat(
                to_decimal(max_actions).as_str(),
            ).concat(" actions (received ").concat(to_decimal(actions.len()).as_str()).concat(")"),
        );
    }
    let mut i: usize = 0;
    while i < actions.len()
        invariant
            i <= actions.len(),
            actions.len() <= max_actions,
            first_refused(actions@, *config, 0) == first_refused(actions@, *config, i as nat),
        decreases actions.len() - i,
    {
        if let Err(e) = validate_action_params(&actions[i], config) {
            return Err(
                "on_batch_complete[".to_string().concat(to_decimal(i).as_str()).concat(
                    "].params: ",
                ).concat(e.as_str()),
            );
        }
        i += 1;
    }
    Ok(())
}

/// Why a request is refused, if it is: the errors of its tasks, else that of its
/// actions, else those of what it says of the batch.
pub open spec fn batch_refusal(
    task_errors: Seq<Seq<char>>,
    actions: Option<Seq<Result<WebhookParams, String>>>,
    meta_errors: Seq<Seq<char>>,
    most: nat,
    config: SecurityConfig,
) -> Option<Seq<Seq<char>>> {
    let refused = match actions {
        Some(a) => actions_refusal(a, most, config),
        None => None,
    };
    if task_errors.len() > 0 {
        Some(task_errors)
    } else if refused is Some {
        Some(seq![refused->0])
    } else if meta_errors.len() > 0 {
        Some(meta_errors)
    } else {
        None
    }
}

/// Checks a request before anything is stored, given the errors found in its tasks
/// and in what it says of the batch. The details of the first check that fails are
/// the answer.
pub fn check_new_batch(
    task_errors: Vec<String>,
    actions: Option<&Vec<Result<WebhookParams, String>>>,
    meta_errors: Vec<String>,
    max_actions: usize,
    config: &SecurityConfig,
) -> (r: Result<(), Vec<String>>)
    ensures
        ({
            let refused = batch_refusal(
                texts(task_errors@),
                match actions {
                    Some(a) => Some(a@),
                    None => None,
                },
                texts(meta_errors@),
                max_actions as nat,
                *config,
            );
            match r {
                Ok(_) => refused is None,
                Err(details) => refused == Some(texts(details@)),
            }
        }),
{
    if task_errors.len() > 0 {
        return Err(task_errors);
    }
    if let Some(a) = actions {
        if let Err(e) = check_batch_actions(a, max_actions, config) {
            let ghost m = e@;
            let mut details: Vec<String> = Vec::new();
            details.push(e);
            assert(texts(details@) =~= seq![m]);
            return Err(details);
        }
    }
    if meta_errors.len() > 0 {
        return Err(meta_errors);
    }
    Ok(())
}

// ---------------------------------------------------------------------------
// Creating the batch
// ---------------------------------------------------------------------------

/// Whether a request has something for the batch as a whole.
pub open spec fn has_batch(
    on_batch_complete: Option<Vec<NewActionDto>>,
    scope: Option<String>,
    metadata: Option<String>,
) -> bool {
    on_batch_complete is Some || scope is Some || metadata is Some
}

/// The tables with the batch row of a request, where it has one.
pub open spec fn opened(
    s: Tables,
    batch_id: u128,
    on_batch_complete: Option<Vec<NewActionDto>>,
    scope: Option<String>,
    metadata: Option<String>,
    now: int,
    t: Tables,
) -> bool {
    if has_batch(on_batch_complete, scope, metadata) {
        &&& t == Tables { batches: t.batches, ..s }
        &&& t.batches.len() == s.batches.len() + 1
        &&& t.batches.drop_last() == s.batches
        &&& ({
            let b = t.batches.last();
            &&& b.id == batch_id
            &&& b.created_at == now
            &&& b.scope == scope
            &&& b.remaining == 0
            &&& b.on_complete matches OnComplete::Actions(v) && v@ == match on_batch_complete {
                Some(a) => a@,
                None => Seq::empty(),
            }
            &&& b.metadata@ == match metadata {
                Some(m) => m@,
                None => "{}"@,
            }
        })
    } else {
        t == s
    }
}

/// Inserts the batch row of a request that has something for the batch as a whole.
pub fn open_batch(
    store: &mut Store,
    batch_id: u128,
    on_batch_complete: Option<Vec<NewActionDto>>,
    scope: Option<String>,
    metadata: Option<String>,
    now: i64,
)
    ensures
        opened(
            old(store)@,
            batch_id,
            on_batch_complete,
            scope,
            metadata,
            now as int,
            final(store)@,
        ),
{
    let ghost s = store@;
    if on_batch_complete.is_some() || scope.is_some() || metadata.is_some() {
        let on_complete: Vec<NewActionDto> = match on_batch_complete {
            Some(a) => a,
            None => Vec::new(),
        };
        let metadata: String = match metadata {
            Some(m) => m,
            None => "{}".to_string(),
        };
        insert_batch(&mut store.batches, batch_id, on_complete, scope, metadata, now);
        assert(store@.batches.drop_last() =~= s.batches);
        assert(store@ =~= Tables { batches: store@.batches, ..s });
    }
}

/// The tables once `n` tasks of a batch were inserted: the batch waits for them, and
/// one without any is complete.
pub open spec fn closed(s: Tables, batch_id: u128, n: i32, now: int) -> Tables {
    Tables {
        batches: s.batches.map_values(with_remaining(batch_id, n)),
        outbox: if n == 0 {
            signalled(s.outbox, s.ledger, s.batches, registered_batch(batch_id), now)
        } else {
            s.outbox
        },
        ..s
    }
}

/// The answer to a request that creates tasks. Whatever it says, it names the batch.
#[derive(Debug)]
pub struct AddTaskReply {
    /// The batch.
    pub batch_id: u128,
    /// HTTP status: 201, 204 where nothing was created, or 400 where the request was
    /// refused.
    pub status: u16,
    /// The tasks that were created, without those that exist already.
    pub tasks: Vec<BasicTaskDto>,
    /// What is wrong with a request that was refused.
    pub details: Vec<String>,
    /// Loops to run.
    pub nudges: Nudges,
}

/// The answer to a request that did not pass its checks: all that is wrong with it,
/// and no task.
pub open spec fn refuses(r: AddTaskReply, batch_id: u128, details: Seq<String>) -> bool {
    &&& r.batch_id == batch_id
    &&& r.status == 400
    &&& r.tasks@.len() == 0
    &&& r.details@ == details
    &&& r.nudges == no_nudges()
}

/// The answer to a request whose tasks were stored. Fresh tasks give work to the start
/// loop; a batch without any may be complete, which gives work to the delivery
/// loop.
pub open spec fn accepts(r: AddTaskReply, batch_id: u128) -> bool {
    &&& r.batch_id == batch_id
    &&& r.status == if r.tasks@.len() == 0 {
        204u16
    } else {
        201
    }
    &&& r.details@.len() == 0
    &&& r.nudges == (Nudges { start: r.tasks@.len() > 0, delivery: r.tasks@.len() == 0 })
}

/// Refuses a request.
pub fn refused_reply(batch_id: u128, details: Vec<String>) -> (r: AddTaskReply)
    ensures
        refuses(r, batch_id, details@),
{
    AddTaskReply {
        batch_id,
        status: 400,
        tasks: Vec::new(),
        details,
        nudges: Nudges { start: false, delivery: false },
    }
}

/// The answer for the tasks that were created.
pub fn created_reply(batch_id: u128, tasks: Vec<BasicTaskDto>) -> (r: AddTaskReply)
    ensures
        accepts(r, batch_id),
        r.tasks == tasks,
{
    let empty: bool = tasks.len() == 0;
    AddTaskReply {
        batch_id,
        status: if empty {
            204
        } else {
            201
        },
        tasks,
        details: Vec::new(),
        nudges: Nudges { start: !empty, delivery: empty },
    }
}

/// A batch that is being created, one task after the other, so that the dedupe check
/// of a task sees the tasks before it.
#[derive(Debug)]
pub struct BatchRun {
    /// The batch.
    pub batch_id: u128,
    /// Which task each local id stands for.
    pub mapping: IdMapping,
    /// The tasks that were created.
    pub created: Vec<BasicTaskDto>,
}

impl BatchRun {
    /// How far the batch came, with these tables.
    pub open spec fn state(self, tables: Tables) -> Inserted {
        Inserted { tables, mapping: self.mapping@, results: basic_rows(self.created@) }
    }

    /// Starts the batch of a request with its row, where it has one. A request that did
    /// not pass its checks is refused, and changes nothing.
    pub fn begin(
        store: &mut Store,
        checked: Result<(), Vec<String>>,
        batch_id: u128,
        on_batch_complete: Option<Vec<NewActionDto>>,
        scope: Option<String>,
        metadata: Option<String>,
        now: i64,
    ) -> (r: Result<Self, AddTaskReply>)
        ensures
            match checked {
                Err(details) => {
                    &&& final(store)@ == old(store)@
                    &&& r matches Err(reply) && refuses(reply, batch_id, details@)
                },
                Ok(_) => {
                    &&& opened(
                        old(store)@,
                        batch_id,
                        on_batch_complete,
                        scope,
                        metadata,
                        now as int,
                        final(store)@,
                    )
                    &&& r matches Ok(run) && run.batch_id == batch_id && run.state(final(store)@)
                        == (Inserted {
                        tables: final(store)@,
                        mapping: Seq::empty(),
                        results: Seq::empty(),
                    })
                },
            },
    {
        if let Err(details) = checked {
            return Err(refused_reply(batch_id, details));
        }
        open_batch(store, batch_id, on_batch_complete, scope, metadata, now);
        let r: BatchRun = BatchRun { batch_id, mapping: IdMapping::new(), created: Vec::new() };
        assert(basic_rows(r.created@) =~= Seq::empty());
        Ok(r)
    }

    /// Inserts the next task under a fresh id, which is the answer, or skips it where
    /// its dedupe check says so.
    pub fn insert(&mut self, store: &mut Store, task: NewTaskDto, should_write: bool, now: i64) -> (r:
        Option<u128>)
        requires
            deps_fit(seq![task]),
        ensures
            final(self).batch_id == old(self).batch_id,
            r is Some <==> written(task, should_write),
            exists|id: u128|
                {
                    &&& r matches Some(x) ==> x == id
                    &&& final(self).state(final(store)@) == #[trigger] inserted(
                        old(self).state(old(store)@),
                        seq![task],
                        seq![id],
                        seq![should_write],
                        Some(old(self).batch_id),
                        now as int,
                    )
                },
    {
        let ghost before = self.state(store@);
        let ghost batch = Some(self.batch_id);
        let mut tasks: Vec<NewTaskDto> = Vec::new();
        tasks.push(task);
        let mut verdicts: Vec<bool> = Vec::new();
        verdicts.push(should_write);
        assert(tasks@ =~= seq![task]);
        assert(verdicts@ =~= seq![should_write]);
        let ghost start = Inserted { results: Seq::empty(), ..before };
        let mut added: Vec<BasicTaskDto> = insert_task_batch(
            store,
            &mut self.mapping,
            tasks,
            &verdicts,
            Some(self.batch_id),
            now,
        );
        let ghost ids = choose|ids: Seq<u128>|
            ids.len() == 1 && (Inserted {
                tables: store@,
                mapping: self.mapping@,
                results: basic_rows(added@),
            }) == #[trigger] inserted(
                start,
                seq![task],
                ids,
                seq![should_write],
                batch,
                now as int,
            );
        let ghost id = ids[0];
        proof {
            assert(ids =~= seq![id]);
            lemma_insert_one(start, task, id, should_write, batch, now as int);
            lemma_insert_one(before, task, id, should_write, batch, now as int);
            assert(basic_rows(added@).len() == added@.len());
        }
        let r: Option<u128> = if added.len() > 0 {
            assert(basic_rows(added@)[0] == added@[0]@);
            Some(added[0].id)
        } else {
            None
        };
        let ghost old_created = self.created@;
        let ghost more = added@;
        self.created.append(&mut added);
        assert(basic_rows(self.created@) =~= basic_rows(old_created) + basic_rows(more));
        assert(self.state(store@) =~= inserted(
            before,
            seq![task],
            seq![id],
            seq![should_write],
            batch,
            now as int,
        ));
        r
    }

    /// Completes the batch: it waits for the tasks that were created, and one without
    /// any is complete. The answer holds those tasks.
    pub fn finish(self, store: &mut Store, now: i64) -> (r: AddTaskReply)
        ensures
            final(store)@ == closed(
                old(store)@,
                self.batch_id,
                self.created@.len() as i32,
                now as int,
            ),
            r.tasks == self.created,
            accepts(r, self.batch_id),
    {
        let ghost mid = store@;
        let count: i32 = self.created.len() as i32;
        init_batch_remaining(
            &mut store.batches,
            &mut store.outbox,
            &store.ledger,
            self.batch_id,
            count,
            now,
        );
        assert(store@ =~= closed(mid, self.batch_id, count, now as int));
        created_reply(self.batch_id, self.created)
    }
}

/// A task that waits for others.
pub open spec fn waits() -> spec_fn(TaskRow) -> bool {
    |r: TaskRow| r.wait_finished > 0
}

/// How many of the tasks from a position on wait for others.
pub fn count_dependent(tasks: &Vec<Task>, from: usize) -> (r: usize)
    requires
        from <= tasks@.len(),
    ensures
        r == count(rows(tasks@).skip(from as int), waits()),
{
    let ghost rs = rows(tasks@).skip(from as int);
    let mut n: usize = 0;
    let mut i: usize = from;
    assert(rs.take(0) =~= Seq::empty());
    while i < tasks.len()
        invariant
            from <= i <= tasks@.len(),
            rs == rows(tasks@).skip(from as int),
            n == count(rs.take(i - from), waits()),
            n <= i - from,
        decreases tasks.len() - i,
    {
        proof {
            assert(rs[i - from] == tasks@[i as int]@);
            lemma_count_take(rs, waits(), i - from);
        }
        if tasks[i].wait_finished > 0 {
            n += 1;
        }
        i += 1;
    }
    assert(rs.take(i - from) =~= rs);
    n
}

/// What inserting a single task leads to.
proof fn lemma_insert_one(
    s: Inserted,
    task: NewTaskDto,
    id: u128,
    verdict: bool,
    batch_id: Option<u128>,
    now: int,
)
    ensures
        inserted(s, seq![task], seq![id], seq![verdict], batch_id, now) == if written(task, verdict) {
            Inserted {
                tables: with_task(s.tables, task, id, batch_id, s.mapping, now),
                mapping: s.mapping.push((task.id@, id)),
                results: s.results.push(basic(new_row(task, id, batch_id, s.mapping, now))),
            }
        } else {
            s
        },
{
    assert(seq![task].drop_last() =~= Seq::empty());
    assert(inserted(s, seq![task].drop_last(), seq![id], seq![verdict], batch_id, now) == s);
}

/// The tasks before a position are inserted under their own ids and verdicts.
proof fn lemma_inserted_prefix(
    start: Inserted,
    dtos: Seq<NewTaskDto>,
    ids: Seq<u128>,
    verdicts: Seq<bool>,
    more_ids: Seq<u128>,
    more_verdicts: Seq<bool>,
    batch_id: Option<u128>,
    now: int,
)
    requires
        forall|k: int| 0 <= k < dtos.len() ==> ids[k] == more_ids[k],
        forall|k: int| 0 <= k < dtos.len() ==> verdicts[k] == more_verdicts[k],
    ensures
        inserted(start, dtos, ids, verdicts, batch_id, now) == inserted(
            start,
            dtos,
            more_ids,
            more_verdicts,
            batch_id,
            now,
        ),
    decreases dtos.len(),
{
    if dtos.len() > 0 {
        lemma_inserted_prefix(
            start,
            dtos.drop_last(),
            ids,
            verdicts,
            more_ids,
            more_verdicts,
            batch_id,
            now,
        );
    }
}

/// Inserting tasks one after the other leads to what inserting them at once does, so
/// that a batch created by [`BatchRun`] is the one that [`add_task`] creates.
pub proof fn inserting_in_steps(
    start: Inserted,
    dtos: Seq<NewTaskDto>,
    ids: Seq<u128>,
    verdicts: Seq<bool>,
    task: NewTaskDto,
    id: u128,
    verdict: bool,
    batch_id: Option<u128>,
    now: int,
)
    requires
        ids.len() == dtos.len(),
        verdicts.len() == dtos.len(),
    ensures
        inserted(
            inserted(start, dtos, ids, verdicts, batch_id, now),
            seq![task],
            seq![id],
            seq![verdict],
            batch_id,
            now,
        ) == inserted(
            start,
            dtos.push(task),
            ids.push(id),
            verdicts.push(verdict),
            batch_id,
            now,
        ),
{
    let mid = inserted(start, dtos, ids, verdicts, batch_id, now);
    lemma_insert_one(mid, task, id, verdict, batch_id, now);
    lemma_inserted_prefix(
        start,
        dtos,
        ids,
        verdicts,
        ids.push(id),
        verdicts.push(verdict),
        batch_id,
        now,
    );
    assert(dtos.push(task).drop_last() =~= dtos);
}

/// A request's batch was stored: its row, where it has one, and its tasks under ids of
/// their own, as far as the dedupe checks let them through.
pub open spec fn stored(
    s: Tables,
    parts: BatchParts,
    should_write: Seq<bool>,
    batch_id: u128,
    now: int,
    t: Tables,
    r: AddTaskReply,
) -> bool {
    exists|o: Tables, ids: Seq<u128>|
        {
            let start = Inserted { tables: o, mapping: Seq::empty(), results: Seq::empty() };
            &&& #[trigger] opened(
                s,
                batch_id,
                parts.on_batch_complete,
                parts.scope,
                parts.metadata,
                now,
                o,
            )
            &&& ids.len() == parts.tasks@.len()
            &&& t == closed(
                #[trigger] inserted(
                    (Inserted { tables: o, mapping: Seq::empty(), results: Seq::empty() }),
                    parts.tasks@,
                    ids,
                    should_write,
                    Some(batch_id),
                    now,
                ).tables,
                batch_id,
                r.tasks@.len() as i32,
                now,
            )
            &&& basic_rows(r.tasks@) == inserted(
                start,
                parts.tasks@,
                ids,
                should_write,
                Some(batch_id),
                now,
            ).results
        }
}

/// Creates the tasks of a request, in one transaction. A request that did not pass its
/// checks is answered with what is wrong with it, and changes nothing. `should_write`
/// holds the answers of the dedupe checks.
pub fn add_task(
    store: &mut Store,
    checked: Result<(), Vec<String>>,
    parts: BatchParts,
    should_write: &Vec<bool>,
    batch_id: u128,
    now: i64,
) -> (r: AddTaskReply)
    requires
        checked is Ok ==> should_write@.len() == parts.tasks@.len() && deps_fit(parts.tasks@),
    ensures
        match checked {
            Err(details) => {
                &&& refuses(r, batch_id, details@)
                &&& final(store)@ == old(store)@
            },
            Ok(_) => {
                &&& accepts(r, batch_id)
                &&& stored(
                    old(store)@,
                    parts,
                    should_write@,
                    batch_id,
                    now as int,
                    final(store)@,
                    r,
                )
            },
        },
{
    if let Err(details) = checked {
        return refused_reply(batch_id, details);
    }
    let BatchParts { tasks, on_batch_complete, scope, metadata } = parts;
    let ghost dtos = tasks@;
    open_batch(store, batch_id, on_batch_complete, scope, metadata, now);
    let ghost t = store@;
    let mut id_mapping: IdMapping = IdMapping::new();
    let ghost start = Inserted { tables: t, mapping: id_mapping@, results: Seq::empty() };
    assert(start =~= (Inserted { tables: t, mapping: Seq::empty(), results: Seq::empty() }));
    let results: Vec<BasicTaskDto> = insert_task_batch(
        store,
        &mut id_mapping,
        tasks,
        should_write,
        Some(batch_id),
        now,
    );
    let ghost ids = choose|ids: Seq<u128>|
        ids.len() == dtos.len() && (Inserted {
            tables: store@,
            mapping: id_mapping@,
            results: basic_rows(results@),
        }) == #[trigger] inserted(start, dtos, ids, should_write@, Some(batch_id), now as int);
    let ghost mid = store@;
    let count: i32 = results.len() as i32;
    init_batch_remaining(
        &mut store.batches,
        &mut store.outbox,
        &store.ledger,
        batch_id,
        count,
        now,
    );
    assert(store@ =~= closed(mid, batch_id, count, now as int));
    proof {
        assert(opened(
            old(store)@,
            batch_id,
            on_batch_complete,
            scope,
            metadata,
            now as int,
            t,
        ));
        assert(inserted(start, dtos, ids, should_write@, Some(batch_id), now as int).tables == mid);
    }
    created_reply(batch_id, results)
}

} // verus!
