use arcrun::action::{HttpVerb, WebhookParams};
use arcrun::config::SecurityConfig;
use arcrun::db::task_lifecycle::CancelAction;
use arcrun::handlers::health::{health_check, pool_exhausted, readiness_check, Probe};
use arcrun::models::{
    Action, ActionKindEnum, NewActionDto, Rules, StatusKind, Task, TriggerCondition, TriggerKind,
    WebhookExecutionStatus,
};
use arcrun::store::Store;
use arcrun::workers::leader_lease::{LeaderLease, LeaseAction, LeaseEvent};
use arcrun::workers::start_task::{
    execute_webhook_for_task, heartbeat, heartbeat_interval, start_task_phase_a, StartPhaseA,
};

fn task(id: u128, status: StatusKind) -> Task {
    Task {
        id,
        name: "t".to_string(),
        kind: "k".to_string(),
        status,
        timeout: 60,
        created_at: id as i64,
        started_at: None,
        last_updated: 0,
        metadata: "{}".to_string(),
        ended_at: None,
        start_condition: Rules(Vec::new()),
        wait_success: 0,
        wait_finished: 0,
        success: 0,
        failures: 0,
        failure_reason: None,
        batch_id: Some(9),
        expected_count: None,
        dead_end_barrier: false,
        priority: 0,
        claimed_slot_keys: None,
        capacity_charge: None,
    }
}

const TIMEOUT: u128 = 30_000_000;

fn store(status: StatusKind) -> Store {
    let mut s = Store::new();
    s.tasks = vec![task(1, status)];
    s.actions = vec![Action {
        id: None,
        task_id: 1,
        kind: ActionKindEnum::Webhook,
        params: "{}".to_string(),
        trigger: TriggerKind::Start,
        condition: TriggerCondition::Success,
        success: None,
    }];
    s
}

fn cancel(url: &str) -> CancelAction {
    CancelAction {
        dto: NewActionDto { kind: ActionKindEnum::Webhook, params: "{}".to_string() },
        params: Ok(WebhookParams {
            url: url.to_string(),
            verb: HttpVerb::Delete,
            body: None,
            headers: None,
        }),
    }
}

#[test]
fn a_start_runs_its_actions_once() {
    let mut s = store(StatusKind::Claimed);
    let phase = start_task_phase_a(&s.tasks, &s.actions, &mut s.ledger, 1, TIMEOUT, 0);
    assert!(matches!(&phase, Ok(StartPhaseA::Proceed { actions, .. }) if actions.len() == 1));
    let again = start_task_phase_a(&s.tasks, &s.actions, &mut s.ledger, 1, TIMEOUT, 1);
    assert!(matches!(again, Ok(StartPhaseA::Skip { .. })));
    let outcomes = vec![
        Ok(Some(cancel("https://example.com/stop"))),
        Ok(None),
        Ok(Some(cancel("http://localhost/stop"))),
    ];
    let r = execute_webhook_for_task(
        &mut s,
        1,
        phase,
        outcomes,
        &SecurityConfig::default(),
        false,
        2,
    );
    assert!(r.ok && r.started && !r.nudge_delivery);
    assert_eq!(s.tasks[0].status, StatusKind::Running);
    assert_eq!(s.ledger[0].status, WebhookExecutionStatus::Success);
    // Of the two cancel actions, the internal target is refused.
    assert_eq!(s.actions.len(), 2);
    assert_eq!(s.actions[1].trigger, TriggerKind::Cancel);
}

#[test]
fn a_failed_action_fails_the_task() {
    let mut s = store(StatusKind::Claimed);
    let phase = start_task_phase_a(&s.tasks, &s.actions, &mut s.ledger, 1, TIMEOUT, 0);
    let r = execute_webhook_for_task(
        &mut s,
        1,
        phase,
        vec![Err("500".to_string())],
        &SecurityConfig::default(),
        false,
        2,
    );
    assert!(!r.ok && !r.started && r.nudge_delivery);
    assert_eq!(s.tasks[0].status, StatusKind::Failure);
    assert_eq!(s.tasks[0].failure_reason, Some("on_start webhook failed".to_string()));
    assert_eq!(s.ledger[0].status, WebhookExecutionStatus::Failure);
    assert_eq!(s.outbox.len(), 1);
}

#[test]
fn a_task_canceled_meanwhile_is_not_started() {
    let mut s = store(StatusKind::Canceled);
    let phase = start_task_phase_a(&s.tasks, &s.actions, &mut s.ledger, 1, TIMEOUT, 0);
    assert!(matches!(phase, Ok(StartPhaseA::Skip { .. })));
    assert_eq!(s.ledger[0].status, WebhookExecutionStatus::Success);
    let r = execute_webhook_for_task(
        &mut s,
        1,
        phase,
        vec![],
        &SecurityConfig::default(),
        false,
        2,
    );
    assert!(r.ok && !r.started);
    assert_eq!(s.tasks[0].status, StatusKind::Canceled);
}

#[test]
fn a_missing_task_is_an_error() {
    let mut s = store(StatusKind::Claimed);
    let phase = start_task_phase_a(&s.tasks, &s.actions, &mut s.ledger, 2, TIMEOUT, 0);
    assert_eq!(
        phase.err(),
        Some("Failed to re-check task status: Record not found".to_string())
    );
}

#[test]
fn heartbeats_refresh_claimed_tasks_only() {
    let mut tasks = vec![task(1, StatusKind::Claimed), task(2, StatusKind::Running)];
    heartbeat(&mut tasks, 1, 7);
    heartbeat(&mut tasks, 2, 7);
    assert_eq!((tasks[0].last_updated, tasks[1].last_updated), (7, 0));
    assert_eq!(heartbeat_interval(30), 10);
}

#[test]
fn a_lease_is_taken_and_lost_with_its_connection() {
    let mut l = LeaderLease::new();
    assert_eq!(l.ensure(LeaseEvent::Tick), LeaseAction::Connect);
    assert_eq!(l.ensure(LeaseEvent::Connected { ok: true }), LeaseAction::TryLock);
    assert_eq!(l.ensure(LeaseEvent::Locked { granted: true }), LeaseAction::Answer { leader: true });
    assert_eq!(l.ensure(LeaseEvent::Tick), LeaseAction::Ping);
    assert_eq!(l.ensure(LeaseEvent::Pinged { ok: true }), LeaseAction::Answer { leader: true });
    assert_eq!(l.ensure(LeaseEvent::Tick), LeaseAction::Ping);
    let next = l.ensure(LeaseEvent::Pinged { ok: false });
    assert!(!l.is_leader);
    assert!(next != LeaseAction::Answer { leader: true });
}

#[test]
fn probes_answer_by_what_they_found() {
    let h = health_check(Probe::Acquired, 5, 2);
    assert_eq!((h.status, h.database, h.pool_size, h.pool_idle), ("ok", "healthy", 5, 2));
    assert_eq!(health_check(Probe::TimedOut, 5, 0).status, "degraded");
    assert!(pool_exhausted(10, 0, 10));
    assert_eq!(readiness_check(10, 0, 10, Probe::Acquired), Some("connection pool exhausted"));
    assert_eq!(readiness_check(9, 0, 10, Probe::Acquired), None);
    assert_eq!(
        readiness_check(9, 1, 10, Probe::Failed),
        Some("cannot acquire database connection")
    );
    assert_eq!(
        readiness_check(9, 1, 10, Probe::TimedOut),
        Some("connection acquire timed out (pool saturated)")
    );
}
