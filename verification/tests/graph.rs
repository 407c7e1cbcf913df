use arcrun::db::task_lifecycle::{fail_task_and_propagate, update_running_task, UpdateTaskResult};
use arcrun::db::task_query::timeout_task_and_propagate;
use arcrun::db::webhook_execution::batch_completion_stats;
use arcrun::dtos::UpdateTaskDto;
use arcrun::error::ArcRunError;
use arcrun::handlers::batch::{stop_batch, update_batch_rules};
use arcrun::handlers::task::{
    batch_task_updater, cancel_task, pause_task, resume_task, update_task,
};
use arcrun::handlers::{error_reply, Body, Nudges, Reply};
use arcrun::metrics::{init_metrics, read_counter};
use arcrun::models::{
    Batch, Link, NewActionDto, ActionKindEnum, OnComplete, RuleSlot, Rules, Matcher,
    StatusKind, Strategy, Task, TriggerKind,
};
use arcrun::store::Store;
use arcrun::validation::rules::{validate_rules, validate_update_task_counters};
use arcrun::workers::change_metrics::{status_changes, StatusChange};
use arcrun::workers::timeout_loop::{
    drain_goes_on, run_timeout_tick, DrainAction, DrainRun, MAX_TIMEOUT_DRAIN_PASSES,
};
use std::collections::HashMap;

fn task(id: u128, status: StatusKind) -> Task {
    Task {
        id,
        name: "t".to_string(),
        kind: "k".to_string(),
        status,
        timeout: 60,
        created_at: id as i64,
        started_at: None,
        last_updated: 0,
        metadata: "{}".to_string(),
        ended_at: None,
        start_condition: Rules(Vec::new()),
        wait_success: 0,
        wait_finished: 0,
        success: 0,
        failures: 0,
        failure_reason: None,
        batch_id: Some(9),
        expected_count: None,
        dead_end_barrier: false,
        priority: 0,
        claimed_slot_keys: None,
        capacity_charge: None,
    }
}

fn waiting(id: u128, parents: i32, required: i32) -> Task {
    let mut t = task(id, StatusKind::Waiting);
    t.wait_finished = parents;
    t.wait_success = required;
    t
}

fn link(parent_id: u128, child_id: u128, requires_success: bool) -> Link {
    Link { parent_id, child_id, requires_success }
}

fn store(tasks: Vec<Task>, links: Vec<Link>) -> Store {
    let mut s = Store::new();
    let live = tasks.iter().filter(|t| !t.status.is_terminal()).count() as i32;
    s.tasks = tasks;
    s.links = links;
    s.batches = vec![Batch {
        id: 9,
        on_complete: OnComplete::Actions(vec![NewActionDto {
            kind: ActionKindEnum::Webhook,
            params: "{}".to_string(),
        }]),
        created_at: 0,
        scope: None,
        metadata: "{}".to_string(),
        remaining: live,
    }];
    s
}

fn update(status: Option<StatusKind>) -> UpdateTaskDto {
    UpdateTaskDto {
        status,
        metadata: None,
        new_success: None,
        new_failures: None,
        failure_reason: if status == Some(StatusKind::Failure) {
            Some("boom".to_string())
        } else {
            None
        },
        expected_count: None,
        priority: None,
    }
}

fn status(s: &Store, id: u128) -> StatusKind {
    s.tasks.iter().find(|t| t.id == id).unwrap().status
}

fn keys(s: &Store) -> Vec<String> {
    s.outbox.iter().map(|r| r.idempotency_key.clone()).collect()
}

fn end_key(id: u128, how: &str) -> String {
    format!("{}:end:{}", uuid::Uuid::from_u128(id), how)
}

#[test]
fn success_unblocks_a_child() {
    let mut s = store(
        vec![task(1, StatusKind::Running), waiting(2, 1, 1)],
        vec![link(1, 2, true)],
    );
    let r = update_running_task(&mut s, 1, update(Some(StatusKind::Success)), true, 10);
    assert_eq!(r, UpdateTaskResult::Updated);
    assert_eq!(status(&s, 1), StatusKind::Success);
    assert_eq!(status(&s, 2), StatusKind::Pending);
    assert_eq!(s.tasks[1].wait_finished, 0);
    assert_eq!(s.tasks[1].wait_success, 0);
    assert_eq!(keys(&s), vec![end_key(1, "success")]);
    assert_eq!(s.batches[0].remaining, 1);
}

#[test]
fn failure_cascades_through_required_links_only() {
    let mut s = store(
        vec![
            task(1, StatusKind::Running),
            waiting(2, 1, 1),
            waiting(3, 1, 0),
            waiting(4, 1, 1),
        ],
        vec![link(1, 2, true), link(1, 3, false), link(2, 4, true)],
    );
    assert!(fail_task_and_propagate(&mut s, 1, "no", false, 10));
    assert_eq!(status(&s, 2), StatusKind::Failure);
    assert_eq!(status(&s, 3), StatusKind::Pending);
    assert_eq!(status(&s, 4), StatusKind::Failure);
    assert_eq!(s.tasks[0].failure_reason, Some("no".to_string()));
    assert_eq!(s.batches[0].remaining, 1);
    assert_eq!(
        keys(&s),
        vec![end_key(1, "failure"), end_key(2, "failure"), end_key(4, "failure")]
    );
}

#[test]
fn dead_ends_are_canceled_up_to_a_barrier() {
    let graph = |barrier: bool| {
        let mut middle = task(2, StatusKind::Running);
        middle.dead_end_barrier = barrier;
        store(
            vec![task(1, StatusKind::Running), middle, task(3, StatusKind::Running), waiting(4, 2, 2)],
            vec![link(1, 2, false), link(2, 4, true), link(3, 4, true)],
        )
    };
    // The only child of the middle task fails with its other parent.
    let mut s = graph(true);
    assert!(fail_task_and_propagate(&mut s, 3, "no", true, 10));
    assert_eq!(status(&s, 4), StatusKind::Failure);
    assert_eq!(status(&s, 2), StatusKind::Canceled);
    assert_eq!(status(&s, 1), StatusKind::Running);
    assert_eq!(s.batches[0].remaining, 1);
    let mut s = graph(false);
    assert!(fail_task_and_propagate(&mut s, 3, "no", true, 10));
    assert_eq!(status(&s, 1), StatusKind::Canceled);
    assert_eq!(s.batches[0].remaining, 0);
    assert!(keys(&s).contains(&format!("batch:{}:complete", uuid::Uuid::from_u128(9))));
}

#[test]
fn a_repeated_update_changes_nothing() {
    let mut s = store(vec![task(1, StatusKind::Running)], vec![]);
    assert_eq!(
        update_running_task(&mut s, 1, update(Some(StatusKind::Failure)), false, 10),
        UpdateTaskResult::Updated
    );
    let queued = s.outbox.len();
    assert_eq!(
        update_running_task(&mut s, 1, update(Some(StatusKind::Failure)), false, 20),
        UpdateTaskResult::AlreadyInRequestedState
    );
    assert_eq!(s.outbox.len(), queued);
    assert_eq!(s.tasks[0].ended_at, Some(10));
    assert_eq!(
        update_running_task(&mut s, 1, update(Some(StatusKind::Success)), false, 20),
        UpdateTaskResult::Conflict(StatusKind::Failure)
    );
    assert_eq!(
        update_running_task(&mut s, 2, update(None), false, 20),
        UpdateTaskResult::NotFound
    );
}

#[test]
fn updates_are_answered_by_what_they_did() {
    let mut s = store(vec![task(1, StatusKind::Running)], vec![]);
    let r = update_task(&mut s, 1, update(Some(StatusKind::Paused)), false, 10);
    assert_eq!(r.status, 400);
    let mut silent = update(Some(StatusKind::Failure));
    silent.failure_reason = None;
    assert_eq!(update_task(&mut s, 1, silent, false, 10).status, 400);
    let mut counted = update(None);
    counted.new_success = Some(i32::MAX);
    assert_eq!(update_task(&mut s, 1, counted, false, 10).status, 200);
    assert_eq!(s.tasks[0].success, i32::MAX);
    let mut over = update(None);
    over.new_success = Some(1);
    let r = update_task(&mut s, 1, over, false, 10);
    assert_eq!(r.status, 500);
    assert_eq!(s.tasks[0].success, i32::MAX);
    let r = update_task(&mut s, 1, update(Some(StatusKind::Success)), false, 10);
    assert_eq!(r.status, 200);
    assert_eq!(r.nudges, Nudges { start: true, delivery: true });
    let r = update_task(&mut s, 1, update(Some(StatusKind::Success)), false, 10);
    assert_eq!(r.status, 200);
    assert_eq!(r.nudges, Nudges { start: false, delivery: false });
    let r = update_task(&mut s, 1, update(Some(StatusKind::Failure)), false, 10);
    assert_eq!(r.status, 409);
    assert!(matches!(
        r.body,
        Body::Error { current_status: Some(StatusKind::Success), .. }
    ));
    assert_eq!(update_task(&mut s, 5, update(None), false, 10).status, 404);
}

fn details(r: Reply) -> Vec<String> {
    assert_eq!(r.status, 400);
    assert_eq!(r.nudges, Nudges { start: false, delivery: false });
    match r.body {
        Body::Invalid { batch_id: None, details } => details,
        other => panic!("not a validation error: {:?}", other),
    }
}

#[test]
fn an_invalid_update_is_answered_with_its_details() {
    let mut s = store(vec![task(1, StatusKind::Running)], vec![]);
    let mut dto = update(Some(StatusKind::Failure));
    dto.failure_reason = None;
    assert_eq!(
        details(update_task(&mut s, 1, dto, false, 10)),
        vec!["failure_reason: required when status is Failure".to_string()]
    );
    assert_eq!(
        details(update_task(&mut s, 1, update(Some(StatusKind::Paused)), false, 10)),
        vec!["status: only Success and Failure can be set".to_string()]
    );
    assert_eq!(status(&s, 1), StatusKind::Running);
}

#[test]
fn counts_have_to_count_something() {
    let mut dto = update(None);
    let r = batch_task_updater(3, &dto, Ok(())).err().unwrap();
    assert_eq!(r.status, 400);
    assert!(matches!(
        r.body,
        Body::Text(m) if m == "At least one of new_success or new_failures must be non-zero"
    ));
    dto.new_failures = Some(4);
    let evt = batch_task_updater(3, &dto, Ok(())).unwrap();
    assert_eq!((evt.task_id, evt.success, evt.failures), (3, 0, 4));
}

#[test]
fn counts_that_are_not_valid_are_refused_first() {
    let mut dto = update(None);
    let wrong = vec!["a".to_string(), "b".to_string()];
    assert_eq!(details(batch_task_updater(3, &dto, Err(wrong.clone())).err().unwrap()), wrong);
    dto.new_success = Some(4);
    assert_eq!(validate_update_task_counters(&dto), Ok(()));
    assert_eq!(details(batch_task_updater(3, &dto, Err(wrong.clone())).err().unwrap()), wrong);
    dto.new_success = Some(-4);
    dto.new_failures = Some(-1);
    assert_eq!(
        validate_update_task_counters(&dto),
        Err(vec![
            "new_success: must not be negative".to_string(),
            "new_failures: must not be negative".to_string()
        ])
    );
}

#[test]
fn cancellation_is_propagated_like_a_failure() {
    let mut s = store(
        vec![task(1, StatusKind::Claimed), waiting(2, 1, 1)],
        vec![link(1, 2, true)],
    );
    let r = cancel_task(&mut s, 1, false, 10);
    assert_eq!(r.status, 200);
    assert_eq!(status(&s, 1), StatusKind::Canceled);
    assert_eq!(status(&s, 2), StatusKind::Failure);
    assert_eq!(s.outbox[0].trigger, TriggerKind::Cancel);
    assert_eq!(cancel_task(&mut s, 1, false, 10).status, 400);
    assert_eq!(cancel_task(&mut s, 8, false, 10).status, 404);
}

#[test]
fn a_task_canceled_before_it_started_is_not_notified() {
    let mut s = store(vec![task(1, StatusKind::Pending), task(2, StatusKind::Pending)], vec![]);
    assert_eq!(cancel_task(&mut s, 1, false, 10).status, 200);
    assert!(s.outbox.is_empty());
    assert_eq!(s.batches[0].remaining, 1);
}

#[test]
fn resume_undoes_a_pause() {
    let mut tasks = vec![waiting(1, 1, 0), task(2, StatusKind::Pending), task(3, StatusKind::Running)];
    assert_eq!(pause_task(&mut tasks, 1, 5).status, 200);
    assert_eq!(pause_task(&mut tasks, 2, 5).status, 200);
    assert_eq!(tasks[0].status, StatusKind::Paused);
    assert_eq!(resume_task(&mut tasks, 1, 6).nudges, Nudges { start: true, delivery: false });
    resume_task(&mut tasks, 2, 6);
    assert_eq!(tasks[0].status, StatusKind::Waiting);
    assert_eq!(tasks[1].status, StatusKind::Pending);
    let r = pause_task(&mut tasks, 3, 7);
    assert_eq!(r.status, 400);
    match r.body {
        Body::Refusal { error, status: 400 } => assert_eq!(
            error,
            "Cannot pause a Running task (its on_start webhook may have fired); cancel it instead (DELETE /task/{id})"
        ),
        _ => panic!("a refusal has a message"),
    }
    match resume_task(&mut tasks, 2, 7).body {
        Body::Refusal { error, status: 400 } => assert_eq!(
            error,
            "Cannot resume task in Pending state (only Paused tasks can be resumed)"
        ),
        _ => panic!("a refusal has a message"),
    }
    assert_eq!(resume_task(&mut tasks, 4, 7).status, 404);
}

#[test]
fn a_stopped_batch_is_complete() {
    let mut s = store(
        vec![
            waiting(1, 1, 0),
            task(2, StatusKind::Running),
            task(3, StatusKind::Success),
            task(4, StatusKind::Paused),
            task(5, StatusKind::Claimed),
            task(6, StatusKind::Pending),
        ],
        vec![link(2, 1, false)],
    );
    let mut m = init_metrics().unwrap();
    let d = stop_batch(&mut s, &mut m, 9, 10).unwrap();
    assert_eq!(
        (d.canceled_waiting, d.canceled_pending, d.canceled_claimed, d.canceled_running),
        (1, 1, 1, 1)
    );
    assert_eq!((d.canceled_paused, d.already_terminal), (1, 1));
    assert_eq!(read_counter(&m.tasks_cancelled_total), 5);
    assert_eq!(s.batches[0].remaining, 0);
    assert!(s.tasks.iter().all(|t| t.status.is_terminal()));
    assert_eq!(s.tasks[0].failure_reason, Some("Batch stopped".to_string()));
    assert_eq!(s.outbox.len(), 3);
    let stats = batch_completion_stats(&s.tasks, 9);
    assert_eq!((stats.success, stats.failure, stats.canceled), (1, 0, 5));
    assert_eq!(stats.completed_at, Some(10));
    let e = stop_batch(&mut s, &mut m, 8, 10).err().unwrap();
    assert_eq!(e.status_code(), 404);
    assert_eq!(
        e.message(),
        "No tasks found for batch 00000000-0000-0000-0000-000000000008"
    );
}

#[test]
fn rules_change_only_for_tasks_that_have_not_started() {
    let mut tasks =
        vec![waiting(1, 1, 0), task(2, StatusKind::Running), task(3, StatusKind::Pending)];
    tasks[2].kind = "other".to_string();
    let rules = Rules(vec![rule(1, "k")]);
    assert_eq!(update_batch_rules(&mut tasks, 9, "k", &rules, Ok(())).unwrap(), 1);
    assert_eq!(tasks[0].start_condition.0.len(), 1);
    assert!(tasks[1].start_condition.0.is_empty());
    assert!(tasks[2].start_condition.0.is_empty());
    let r = update_batch_rules(&mut tasks, 4, "k", &rules, Ok(())).err().unwrap();
    assert_eq!(r.status, 404);
    assert!(matches!(
        r.body,
        Body::Refusal { error, status: 404 }
            if error == "No tasks found for batch 00000000-0000-0000-0000-000000000004"
    ));
}

fn rule(limit: i32, kind: &str) -> Strategy {
    Strategy::Concurency {
        max_concurency: limit,
        matcher: Matcher {
            status: StatusKind::Running,
            kind: kind.to_string(),
            fields: Vec::new(),
        },
    }
}

#[test]
fn rules_that_are_not_valid_change_nothing() {
    let mut tasks = vec![task(1, StatusKind::Pending)];
    let rules = Rules(vec![rule(0, "k"), rule(1, "k"), rule(-1, " ")]);
    let checked = validate_rules(&rules);
    let wrong = vec![
        "rules[0]: the limit must be greater than 0".to_string(),
        "rules[2]: the limit must be greater than 0".to_string(),
        "rules[2].matcher.kind: Task kind cannot be empty".to_string(),
    ];
    assert_eq!(checked, Err(wrong.clone()));
    assert_eq!(
        details(update_batch_rules(&mut tasks, 9, "k", &rules, checked.clone()).err().unwrap()),
        wrong
    );
    // The kind is looked at first, and the batch last.
    assert_eq!(
        details(update_batch_rules(&mut tasks, 9, "  ", &rules, checked.clone()).err().unwrap()),
        vec!["kind: Task kind cannot be empty".to_string()]
    );
    assert_eq!(
        details(update_batch_rules(&mut tasks, 4, "k", &rules, checked).err().unwrap()),
        wrong
    );
    assert!(tasks[0].start_condition.0.is_empty());
    assert_eq!(validate_rules(&Rules(vec![rule(1, "k")])), Ok(()));
    assert_eq!(validate_rules(&Rules(vec![])), Ok(()));
}

#[test]
fn timed_out_tasks_fail_and_stale_claims_return() {
    let mut late = task(1, StatusKind::Running);
    late.started_at = Some(0);
    let mut fine = task(2, StatusKind::Running);
    fine.started_at = Some(0);
    fine.last_updated = 100_000_000;
    let mut stale = task(3, StatusKind::Claimed);
    stale.claimed_slot_keys = Some(vec!["conc:x".to_string()]);
    let mut s = store(vec![late, fine, stale], vec![]);
    s.slots = vec![RuleSlot { lock_key: "conc:x".to_string(), used: 1 }];
    let round = run_timeout_tick(&mut s, 1_000_000, true, 10, 120_000_000);
    assert_eq!(round.requeued, vec![3]);
    assert_eq!(round.failed, vec![1]);
    assert!(round.nudge_delivery);
    assert_eq!(status(&s, 1), StatusKind::Failure);
    assert_eq!(s.tasks[0].failure_reason, Some("Timeout".to_string()));
    assert_eq!(status(&s, 2), StatusKind::Running);
    assert_eq!(status(&s, 3), StatusKind::Pending);
    assert_eq!(s.slots[0].used, 0);
    assert_eq!(s.tasks[2].claimed_slot_keys, None);
}

#[test]
fn a_drain_stops_after_its_last_pass() {
    let mut tasks = Vec::new();
    for id in 1..60u128 {
        let mut t = task(id, StatusKind::Running);
        t.started_at = Some(0);
        tasks.push(t);
    }
    let mut s = store(tasks, vec![]);
    let round = run_timeout_tick(&mut s, 1_000_000, false, 1, 120_000_000);
    assert_eq!(round.failed.len(), MAX_TIMEOUT_DRAIN_PASSES);
    assert!(!drain_goes_on(0, 0, 0));
    assert!(!drain_goes_on(3, 4, 0));
    assert!(drain_goes_on(4, 4, 0));
    assert!(!drain_goes_on(4, 4, 49));
}

#[test]
fn errors_are_answered_by_their_kind() {
    let e = ArcRunError::Internal("broken".to_string());
    let r = error_reply(&e);
    assert_eq!(r.status, 500);
    assert!(matches!(r.body, Body::Refusal { error, status: 500 } if error == "broken"));
    let e = ArcRunError::InvalidState { message: "no".to_string() };
    let r = error_reply(&e);
    assert_eq!(r.status, 400);
    assert!(matches!(r.body, Body::Refusal { error, status: 400 } if error == "no"));
}

#[test]
fn an_iteration_goes_on_task_by_task_and_pass_by_pass() {
    let mut run = DrainRun::new();
    assert_eq!(run.listed(vec![7, 8]), DrainAction::Fail(7));
    assert_eq!(run.handled(false, 2), DrainAction::Fail(8));
    assert!(!run.enqueued);
    assert_eq!(run.handled(true, 2), DrainAction::List);
    assert_eq!(run.pass, 1);
    assert!(run.enqueued);
    // A pass that is not full is the last one.
    assert_eq!(run.listed(vec![9]), DrainAction::Fail(9));
    assert_eq!(run.handled(true, 2), DrainAction::Stop);
    assert_eq!(DrainRun::new().listed(vec![]), DrainAction::Stop);
}

#[test]
fn a_timeout_reports_what_followed() {
    let mut late = task(1, StatusKind::Running);
    late.started_at = Some(0);
    let mut s = store(
        vec![late, waiting(2, 1, 1), waiting(3, 1, 0), task(4, StatusKind::Running)],
        vec![link(1, 2, true), link(1, 3, false)],
    );
    let before: HashMap<u128, StatusKind> = s.tasks.iter().map(|t| (t.id, t.status)).collect();
    let (was, finish) = timeout_task_and_propagate(&mut s, 1, true, 120_000_000).unwrap();
    assert_eq!((was.id, was.status), (1, StatusKind::Running));
    assert_eq!(finish.cascade_failed, vec![2]);
    assert_eq!(finish.unblocked, vec![3]);
    assert!(finish.canceled_ancestors.is_empty());
    assert_eq!(finish.batches_completed, 0);
    assert_eq!(
        status_changes(&before, &s.tasks),
        vec![
            StatusChange { id: 1, from: StatusKind::Running, to: StatusKind::Failure },
            StatusChange { id: 2, from: StatusKind::Waiting, to: StatusKind::Failure },
            StatusChange { id: 3, from: StatusKind::Waiting, to: StatusKind::Pending },
        ]
    );
    assert!(timeout_task_and_propagate(&mut s, 1, true, 120_000_000).is_none());
}

#[test]
fn a_task_can_become_unblocked_and_a_dead_end_at_once() {
    let mut s = store(
        vec![task(1, StatusKind::Running), waiting(2, 1, 0), waiting(3, 2, 1)],
        vec![link(1, 2, false), link(1, 3, true), link(2, 3, false)],
    );
    let before: HashMap<u128, StatusKind> = s.tasks.iter().map(|t| (t.id, t.status)).collect();
    let finish = arcrun::workers::cancel::cancel_task(&mut s, 1, true, 10).unwrap();
    assert_eq!(finish.unblocked, vec![2]);
    assert_eq!(finish.cascade_failed, vec![3]);
    assert_eq!(finish.canceled_ancestors.len(), 1);
    assert_eq!(finish.batches_completed, 1);
    assert_eq!(
        status_changes(&before, &s.tasks),
        vec![
            StatusChange { id: 1, from: StatusKind::Running, to: StatusKind::Canceled },
            StatusChange { id: 2, from: StatusKind::Waiting, to: StatusKind::Pending },
            StatusChange { id: 2, from: StatusKind::Pending, to: StatusKind::Canceled },
            StatusChange { id: 3, from: StatusKind::Waiting, to: StatusKind::Failure },
        ]
    );
}

#[test]
fn loaded_rows_are_tested() {
    let mut s = store(vec![task(1, StatusKind::Running), waiting(2, 1, 1)], vec![link(1, 2, true)]);
    assert!(s.is_wf());
    s.tasks[0].capacity_charge = Some(-1);
    assert!(!s.is_wf());
    s.tasks[0].capacity_charge = Some(0);
    s.tasks[1].wait_finished = i32::MIN + 2;
    assert!(s.is_wf());
    s.tasks[1].wait_finished = i32::MIN + 1;
    assert!(!s.is_wf());
    s.tasks[1].wait_finished = 1;
    s.tasks[1].wait_success = i32::MIN;
    assert!(!s.is_wf());
    s.tasks[1].wait_success = 1;
    s.tasks[1].id = 1;
    assert!(!s.is_wf());
}
