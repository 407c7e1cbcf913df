//! How requests are answered.

use crate::action::WebhookParams;
use crate::auth::unauthorized_answer;
use crate::config::SecurityConfig;
use crate::db::insert_laws::insert_answers_in_order;
use crate::db::task_insert::{inserted, Inserted};
use crate::db::task_lifecycle::{
    accepted, action_rows, batch_live, batch_tasks, batch_terminal, counts_fit, is_task,
    no_batch_message, not_found_message, or_else, refusal, refused_message, update_result,
    CancelAction, UpdateTaskResult,
};
use crate::dtos::{basic_rows, NewTaskDto, UpdateView};
use crate::error::{ArcRunError, ErrorView};
use crate::handlers::batch::rules_refusal;
use crate::handlers::create::{
    accepts, bad_action_message, batch_refusal, closed, first_refused, opened, refuses, stored,
    AddTaskReply, BatchParts,
};
use crate::handlers::task::{done, no_counts_answer, update_answer, update_refusal};
use crate::handlers::{error_answer, invalid_answer, BodyText, Nudges};
use crate::models::{
    Action, NewActionDto, OnComplete, StatusKind, TaskRow, TriggerCondition, TriggerKind,
};
use crate::store::Tables;
use crate::tally::{count, lemma_filter_count, lemma_filter_has};
use crate::text::{begins_with, decimal, ends_in, uuid_text};
use crate::text_laws::{is_blank, trimming_cuts_the_ends};
use crate::validation::params_refusal;
use crate::workers::cancel::cannot_cancel_message;
use crate::workers::propagation::unique_ids;
use crate::workers::spread_laws::is_end;
use vstd::prelude::*;

verus! {

/// An update may ask for success, or for failure with a reason, or for no status at all.
/// Anything else is refused.
pub proof fn updates_ask_for_an_end(dto: UpdateView)
    ensures
        update_refusal(dto) is None <==> dto.status is None || dto.status == Some(
            StatusKind::Success,
        ) || (dto.status == Some(StatusKind::Failure) && dto.failure_reason is Some),
{
}

/// An update of a task that a worker holds goes through. Of another task it finds that it
/// has the status already, or that it has another one; of none, that there is none.
pub proof fn updates_are_answered_by_the_status(
    rows: Seq<TaskRow>,
    id: u128,
    status: Option<StatusKind>,
    r: UpdateTaskResult,
    i: int,
)
    requires
        unique_ids(rows),
        update_result(rows, id, status, r),
    ensures
        (forall|k: int| 0 <= k < rows.len() ==> (#[trigger] rows[k]).id != id) ==> r
            == UpdateTaskResult::NotFound && update_answer(r).status == 404,
        0 <= i < rows.len() && rows[i].id == id ==> if rows[i].status == StatusKind::Claimed
            || rows[i].status == StatusKind::Running {
            &&& r == UpdateTaskResult::Updated
            &&& update_answer(r).status == 200
            &&& update_answer(r).nudges.start && update_answer(r).nudges.delivery
        } else if status == Some(rows[i].status) {
            &&& r == UpdateTaskResult::AlreadyInRequestedState
            &&& update_answer(r).status == 200
            &&& !update_answer(r).nudges.start && !update_answer(r).nudges.delivery
        } else {
            &&& r == UpdateTaskResult::Conflict(rows[i].status)
            &&& update_answer(r).status == 409
            &&& update_answer(r).body matches BodyText::Error(_, c) && c == Some(rows[i].status)
            &&& !update_answer(r).nudges.start && !update_answer(r).nudges.delivery
        },
{
    if 0 <= i < rows.len() && rows[i].id == id {
        assert(is_task(rows, id));
        assert forall|k: int| 0 <= k < rows.len() && #[trigger] rows[k].id == id implies k == i by {
            assert(rows[k].id == rows[i].id);
        }
    }
}

/// An error is answered with its message and with the code of its sort: 404 for what is
/// not there, 400 for a state that does not allow it, 500 for what should not be. A
/// request that is not valid is answered 400 with the details. Neither makes a loop run.
pub proof fn errors_have_their_code(
    e: ArcRunError,
    batch: Option<u128>,
    details: Seq<Seq<char>>,
)
    ensures
        error_answer(e@).status == match e {
            ArcRunError::NotFound { .. } => 404,
            ArcRunError::InvalidState { .. } => 400,
            ArcRunError::Internal(_) => 500int,
        },
        e.status() == error_answer(e@).status,
        error_answer(e@).body matches BodyText::Refusal(m, c) && c == error_answer(e@).status && m
            == match e {
            ArcRunError::NotFound { message } => message@,
            ArcRunError::InvalidState { message } => message@,
            ArcRunError::Internal(message) => message@,
        },
        error_answer(e@).nudges == (Nudges { start: false, delivery: false }),
        invalid_answer(batch, details).status == 400,
        invalid_answer(batch, details).body == BodyText::Invalid(batch, details),
        invalid_answer(batch, details).nudges == (Nudges { start: false, delivery: false }),
{
}

/// A refused pause or resume says that there is no such task, if and only if there is
/// none; else that its state does not allow it.
pub proof fn refusals_say_why(
    rows: Seq<TaskRow>,
    id: u128,
    op: Seq<char>,
    allowed: Seq<char>,
    e: ErrorView,
)
    requires
        refusal(rows, id, op, allowed, e),
    ensures
        e is NotFound <==> forall|k: int| 0 <= k < rows.len() ==> (#[trigger] rows[k]).id != id,
        e is NotFound || e is InvalidState,
{
}

/// Counts of an update fit if and only if no counter of the task would leave its column.
pub proof fn counts_fit_their_column(rows: Seq<TaskRow>, id: u128, dto: UpdateView, i: int)
    requires
        unique_ids(rows),
        0 <= i < rows.len(),
        rows[i].id == id,
        rows[i].status == StatusKind::Claimed || rows[i].status == StatusKind::Running,
    ensures
        counts_fit(rows, id, dto) <==> {
            let s = match dto.new_success {
                Some(n) => rows[i].success + n,
                None => rows[i].success,
            };
            let f = match dto.new_failures {
                Some(n) => rows[i].failures + n,
                None => rows[i].failures,
            };
            i32::MIN <= s && s <= i32::MAX && i32::MIN <= f && f <= i32::MAX
        },
{
    assert forall|k: int| 0 <= k < rows.len() && #[trigger] rows[k].id == id implies k == i by {
        assert(rows[k].id == rows[i].id);
    }
}

/// A request for tasks is answered 400 where it was refused, with the details and no
/// task; 201 where it created some; 204 where it created none. The start loop runs for new
/// tasks, the delivery loop for a batch that is complete at once.
pub proof fn creations_have_their_code(r: AddTaskReply, batch_id: u128, details: Seq<String>)
    ensures
        accepts(r, batch_id) ==> {
            &&& r.batch_id == batch_id
            &&& r.tasks@.len() > 0 ==> r.status == 201 && r.nudges == (Nudges {
                start: true,
                delivery: false,
            })
            &&& r.tasks@.len() == 0 ==> r.status == 204 && r.nudges == (Nudges {
                start: false,
                delivery: true,
            })
            &&& r.details@.len() == 0
        },
        refuses(r, batch_id, details) ==> {
            &&& r.batch_id == batch_id
            &&& r.status == 400
            &&& r.tasks@.len() == 0
            &&& r.details@ == details
            &&& r.nudges == (Nudges { start: false, delivery: false })
        },
{
}

proof fn lemma_first_refused(
    actions: Seq<Result<WebhookParams, String>>,
    config: SecurityConfig,
    i: nat,
)
    ensures
        first_refused(actions, config, i) is None <==> forall|k: int|
            i <= k < actions.len() ==> params_refusal(#[trigger] actions[k], config) is None,
    decreases actions.len() - i,
{
    if i < actions.len() {
        lemma_first_refused(actions, config, i + 1);
        assert(actions[i as int] == actions[i as int]);
    }
}

/// A new batch passes if and only if nothing is wrong with its tasks nor with what it says
/// of itself, and it has not too many actions, none of which is refused. What is wrong
/// with the tasks comes first.
pub proof fn new_batches_pass_all_checks(
    task_errors: Seq<Seq<char>>,
    actions: Option<Seq<Result<WebhookParams, String>>>,
    meta_errors: Seq<Seq<char>>,
    most: nat,
    config: SecurityConfig,
)
    ensures
        batch_refusal(task_errors, actions, meta_errors, most, config) is None <==> {
            &&& task_errors.len() == 0
            &&& meta_errors.len() == 0
            &&& actions matches Some(a) ==> a.len() <= most && forall|k: int|
                0 <= k < a.len() ==> params_refusal(#[trigger] a[k], config) is None
        },
        task_errors.len() > 0 ==> batch_refusal(task_errors, actions, meta_errors, most, config)
            == Some(task_errors),
{
    if actions is Some {
        lemma_first_refused(actions->0, config, 0);
    }
}

/// New rules pass if and only if they name a kind and are in order themselves.
pub proof fn new_rules_need_a_kind(kind: Seq<char>, checked: Result<(), Vec<String>>)
    ensures
        rules_refusal(kind, checked) is None <==> !is_blank(kind) && checked is Ok,
{
    trimming_cuts_the_ends(kind);
}

/// A request that says something of its batch gets a row for it, with what it said;
/// another gets none. Other batches stay.
pub proof fn batches_are_as_asked(
    s: Tables,
    t: Tables,
    batch_id: u128,
    on_batch_complete: Option<Vec<NewActionDto>>,
    scope: Option<String>,
    metadata: Option<String>,
    now: int,
)
    requires
        opened(s, batch_id, on_batch_complete, scope, metadata, now, t),
    ensures
        on_batch_complete is None && scope is None && metadata is None ==> t == s,
        on_batch_complete is Some || scope is Some || metadata is Some ==> {
            let b = t.batches[s.batches.len() as int];
            &&& t.batches.len() == s.batches.len() + 1
            &&& forall|k: int| 0 <= k < s.batches.len() ==> t.batches[k] == s.batches[k]
            &&& b.id == batch_id
            &&& b.created_at == now
            &&& b.scope == scope
            &&& metadata matches Some(m) ==> b.metadata@ == m@
            &&& metadata is None ==> b.metadata@ == "{}"@
            &&& b.on_complete matches OnComplete::Actions(v) && (on_batch_complete matches Some(a)
                ==> v@ == a@) && (on_batch_complete is None ==> v@.len() == 0)
            &&& t == (Tables { batches: t.batches, ..s })
        },
{
    if on_batch_complete is Some || scope is Some || metadata is Some {
        assert(t.batches[s.batches.len() as int] == t.batches.last());
        assert forall|k: int| 0 <= k < s.batches.len() implies t.batches[k] == s.batches[k] by {
            assert(t.batches.drop_last()[k] == t.batches[k]);
        }
    }
}

/// The cancel actions that a start hands back are registered for the task's cancellation,
/// those of them that are not refused, and no others.
pub proof fn cancel_actions_are_registered(
    given: Seq<CancelAction>,
    config: SecurityConfig,
    task: u128,
)
    ensures
        ({
            let out = action_rows(
                task,
                given.filter(accepted(config)).map_values(|a: CancelAction| a.dto),
                TriggerKind::Cancel,
                TriggerCondition::Success,
            );
            &&& out.len() == count(
                given,
                |a: CancelAction| params_refusal(a.params, config) is None,
            )
            &&& forall|k: int|
                0 <= k < out.len() ==> (#[trigger] out[k]).task_id == task && out[k].trigger
                    == TriggerKind::Cancel && out[k].condition == TriggerCondition::Success
                    && given_as(given, config, out[k])
            &&& forall|i: int|
                0 <= i < given.len() && params_refusal((#[trigger] given[i]).params, config) is None
                    ==> exists|k: int|
                    0 <= k < out.len() && (#[trigger] out[k]).kind == given[i].dto.kind
                        && out[k].params == given[i].dto.params
        }),
{
    let sel = given.filter(accepted(config));
    let dtos = sel.map_values(|a: CancelAction| a.dto);
    let out = action_rows(task, dtos, TriggerKind::Cancel, TriggerCondition::Success);
    lemma_filter_count(
        given,
        accepted(config),
        |a: CancelAction| params_refusal(a.params, config) is None,
    );
    assert forall|k: int| 0 <= k < out.len() implies (#[trigger] out[k]).task_id == task
        && out[k].trigger == TriggerKind::Cancel && out[k].condition == TriggerCondition::Success
        && given_as(given, config, out[k]) by {
        assert(sel.contains(sel[k]));
        lemma_filter_has(given, accepted(config), sel[k]);
        let i = choose|i: int| 0 <= i < given.len() && given[i] == sel[k];
        assert(given[i].dto.kind == out[k].kind);
    }
    assert forall|i: int|
        0 <= i < given.len() && params_refusal((#[trigger] given[i]).params, config) is None implies exists|
        k: int,
    |
        0 <= k < out.len() && (#[trigger] out[k]).kind == given[i].dto.kind && out[k].params
            == given[i].dto.params by {
        assert(given.contains(given[i]));
        lemma_filter_has(given, accepted(config), given[i]);
        let k = choose|k: int| 0 <= k < sel.len() && sel[k] == given[i];
        assert(out[k].kind == given[i].dto.kind);
    }
}

/// An action that was given and is not refused.
pub open spec fn given_as(given: Seq<CancelAction>, config: SecurityConfig, a: Action) -> bool {
    exists|i: int|
        0 <= i < given.len() && (#[trigger] given[i]).dto.kind == a.kind && given[i].dto.params
            == a.params && params_refusal(given[i].params, config) is None
}

/// Of the tasks of a batch those that ended and those that go on make up all.
pub proof fn batches_are_split_by_their_ends(tasks: Seq<TaskRow>, batch: u128, t: TaskRow)
    ensures
        batch_live(batch)(t) <==> t.batch_id == Some(batch) && !is_end(t.status),
        batch_terminal(batch)(t) <==> t.batch_id == Some(batch) && is_end(t.status),
        count(tasks, batch_tasks(batch)) == count(tasks, batch_live(batch)) + count(
            tasks,
            batch_terminal(batch),
        ),
    decreases tasks.len(),
{
    if tasks.len() > 0 {
        batches_are_split_by_their_ends(tasks.drop_last(), batch, t);
    }
}

/// A value that is given is taken, and the other one where none is.
pub proof fn what_is_given_is_taken(o: Option<int>, otherwise: int)
    ensures
        o is None ==> or_else(o, otherwise) == otherwise,
        o matches Some(x) ==> or_else(o, otherwise) == x,
{
}

/// Messages name the task, the batch or the state that they are about.
pub proof fn messages_name_their_subject(
    id: u128,
    status: StatusKind,
    op: Seq<char>,
    allowed: Seq<char>,
    i: nat,
    e: Seq<char>,
)
    ensures
        not_found_message(id) == "Task "@ + uuid_text(id) + " not found"@,
        no_batch_message(id) == "No tasks found for batch "@ + uuid_text(id),
        begins_with(cannot_cancel_message(status), "Cannot cancel task in "@ + status.name()),
        begins_with(
            refused_message(op, status, allowed),
            "Cannot "@ + op + " task in "@ + status.name() + " state (only "@ + allowed,
        ),
        begins_with(bad_action_message(i, e), "on_batch_complete["@ + decimal(i)),
        ends_in(bad_action_message(i, e), e),
{
    let a = "Cannot cancel task in "@ + status.name();
    assert(cannot_cancel_message(status).take(a.len() as int) =~= a);
    let b = "Cannot "@ + op + " task in "@ + status.name() + " state (only "@ + allowed;
    assert(refused_message(op, status, allowed).take(b.len() as int) =~= b);
    let m = bad_action_message(i, e);
    let c = "on_batch_complete["@ + decimal(i);
    assert(m.take(c.len() as int) =~= c);
    assert(m.skip(m.len() - e.len()) =~= e);
}

/// What was done is answered 200 without a body, and makes the named loops run. A report
/// without counts is answered 400, a request without the token 401; neither makes a loop
/// run.
pub proof fn replies_have_their_code(start: bool, delivery: bool)
    ensures
        done(start, delivery).status == 200,
        done(start, delivery).body == BodyText::Empty,
        done(start, delivery).nudges.start == start,
        done(start, delivery).nudges.delivery == delivery,
        no_counts_answer().status == 400,
        no_counts_answer().body is Text,
        no_counts_answer().nudges == (Nudges { start: false, delivery: false }),
        unauthorized_answer().status == 401,
        unauthorized_answer().body matches BodyText::Refusal(_, c) && c == 401,
        unauthorized_answer().nudges == (Nudges { start: false, delivery: false }),
{
}

proof fn lemma_inserted(
    start: Inserted,
    dtos: Seq<NewTaskDto>,
    ids: Seq<u128>,
    verdicts: Seq<bool>,
    batch: u128,
    now: int,
)
    requires
        start.results.len() == 0,
    ensures
        ({
            let e = inserted(start, dtos, ids, verdicts, Some(batch), now);
            &&& e.tables.batches == start.tables.batches
            &&& e.tables.tasks.len() == start.tables.tasks.len() + e.results.len()
            &&& forall|k: int|
                0 <= k < e.results.len() ==> (#[trigger] e.results[k]).batch_id == Some(batch)
        }),
    decreases dtos.len(),
{
    if dtos.len() > 0 {
        lemma_inserted(start, dtos.drop_last(), ids, verdicts, batch, now);
    }
}

/// The answer to a request holds the tasks that were stored for it, in their order and as
/// they were stored, all of them in its batch. A batch with a row waits for just as many.
/// Tasks from before stay.
pub proof fn creations_store_what_they_answer(
    s: Tables,
    parts: BatchParts,
    should_write: Seq<bool>,
    batch_id: u128,
    now: int,
    t: Tables,
    r: AddTaskReply,
)
    requires
        stored(s, parts, should_write, batch_id, now, t, r),
        r.tasks@.len() <= i32::MAX,
    ensures
        t.tasks.len() == s.tasks.len() + r.tasks@.len(),
        forall|i: int| 0 <= i < s.tasks.len() ==> t.tasks[i] == s.tasks[i],
        forall|k: int|
            0 <= k < r.tasks@.len() ==> ({
                let row = t.tasks[s.tasks.len() + k];
                &&& (#[trigger] r.tasks@[k]).id == row.id
                &&& r.tasks@[k].name@ == row.name
                &&& r.tasks@[k].kind@ == row.kind
                &&& r.tasks@[k].status == row.status
                &&& row.batch_id == Some(batch_id)
            }),
        parts.on_batch_complete is Some || parts.scope is Some || parts.metadata is Some
            ==> t.batches.len() == s.batches.len() + 1 && t.batches.last().id == batch_id
            && t.batches.last().remaining == r.tasks@.len(),
        parts.on_batch_complete is None && parts.scope is None && parts.metadata is None
            ==> t.batches.len() == s.batches.len(),
{
    let (o, ids) = choose|o: Tables, ids: Seq<u128>|
        {
            let start = Inserted { tables: o, mapping: Seq::empty(), results: Seq::empty() };
            &&& #[trigger] opened(
                s,
                batch_id,
                parts.on_batch_complete,
                parts.scope,
                parts.metadata,
                now,
                o,
            )
            &&& ids.len() == parts.tasks@.len()
            &&& t == closed(
                #[trigger] inserted(
                    (Inserted { tables: o, mapping: Seq::empty(), results: Seq::empty() }),
                    parts.tasks@,
                    ids,
                    should_write,
                    Some(batch_id),
                    now,
                ).tables,
                batch_id,
                r.tasks@.len() as i32,
                now,
            )
            &&& basic_rows(r.tasks@) == inserted(
                start,
                parts.tasks@,
                ids,
                should_write,
                Some(batch_id),
                now,
            ).results
        };
    let start = Inserted { tables: o, mapping: Seq::empty(), results: Seq::empty() };
    let e = inserted(start, parts.tasks@, ids, should_write, Some(batch_id), now);
    insert_answers_in_order(start, parts.tasks@, ids, should_write, Some(batch_id), now);
    lemma_inserted(start, parts.tasks@, ids, should_write, batch_id, now);
    batches_are_as_asked(
        s,
        o,
        batch_id,
        parts.on_batch_complete,
        parts.scope,
        parts.metadata,
        now,
    );
    assert(basic_rows(r.tasks@) == e.results);
    assert(t.tasks == e.tables.tasks);
    assert(o.tasks == s.tasks);
    assert forall|i: int| 0 <= i < s.tasks.len() implies t.tasks[i] == s.tasks[i] by {
        assert(e.tables.tasks.take(o.tasks.len() as int)[i] == t.tasks[i]);
    }
    assert forall|k: int| 0 <= k < r.tasks@.len() implies ({
        let row = t.tasks[s.tasks.len() + k];
        &&& (#[trigger] r.tasks@[k]).id == row.id
        &&& r.tasks@[k].name@ == row.name
        &&& r.tasks@[k].kind@ == row.kind
        &&& r.tasks@[k].status == row.status
        &&& row.batch_id == Some(batch_id)
    }) by {
        let d = r.tasks@[k];
        assert(basic_rows(r.tasks@)[k] == d@);
        assert(e.results[k] == d@);
        assert(e.tables.tasks.skip(o.tasks.len() as int)[k] == t.tasks[s.tasks.len() + k]);
        assert(d@.batch_id == Some(batch_id));
    }
    assert(t.batches == o.batches.map_values(
        crate::db::webhook_execution::with_remaining(batch_id, r.tasks@.len() as i32),
    ));
}

} // verus!
