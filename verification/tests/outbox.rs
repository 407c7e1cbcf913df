use arcrun::config::WorkerConfig;
use arcrun::db::webhook_execution::{
    complete_webhook_execution, init_batch_remaining, insert_batch, try_claim_webhook_execution,
};
use arcrun::db::webhook_outbox::{
    claim_due_outbox, claim_due_outbox_leased, enqueue_outbox, list_webhook_deliveries,
    mark_outbox_exhausted, mark_outbox_retry, mark_outbox_success, outbox_backlog_stats,
};
use arcrun::models::{
    Action, ActionKindEnum, NewActionDto, Rules, StatusKind, Task, TriggerCondition, TriggerKind,
    WebhookExecution, WebhookExecutionStatus, WebhookOutbox,
};
use arcrun::store::Store;
use arcrun::workers::delivery_loop::{
    apply_mark, compute_backoff, deliver_plan, delivery_config, lag_millis, run_delivery_once,
    trigger_label, DeliveryConfig, MarkAction,
};
use arcrun::workers::webhooks::enqueue_end_outbox;

fn task(id: u128, status: StatusKind) -> Task {
    Task {
        id,
        name: "t".to_string(),
        kind: "k".to_string(),
        status,
        timeout: 60,
        created_at: id as i64,
        started_at: None,
        last_updated: 0,
        metadata: "{}".to_string(),
        ended_at: None,
        start_condition: Rules(Vec::new()),
        wait_success: 0,
        wait_finished: 0,
        success: 0,
        failures: 0,
        failure_reason: None,
        batch_id: Some(9),
        expected_count: None,
        dead_end_barrier: false,
        priority: 0,
        claimed_slot_keys: None,
        capacity_charge: None,
    }
}

const SEC: i64 = 1_000_000;

fn cfg() -> DeliveryConfig {
    DeliveryConfig {
        batch_size: 10,
        max_attempts: 3,
        backoff_base_secs: 2,
        backoff_cap_secs: 60,
        lease_secs: 30,
        concurrency: 4,
        start_stale_secs: 30,
    }
}

fn enqueue(outbox: &mut Vec<WebhookOutbox>, ledger: &Vec<WebhookExecution>, id: u128, at: i64) {
    enqueue_outbox(
        outbox,
        ledger,
        id,
        TriggerKind::End,
        TriggerCondition::Success,
        format!("{}:end", id),
        at,
    );
}

fn action(task_id: u128) -> Action {
    Action {
        id: Some(1),
        task_id,
        kind: ActionKindEnum::Webhook,
        params: "{}".to_string(),
        trigger: TriggerKind::End,
        condition: TriggerCondition::Success,
        success: None,
    }
}

#[test]
fn an_event_is_queued_once() {
    let mut outbox = Vec::new();
    let ledger = Vec::new();
    enqueue(&mut outbox, &ledger, 1, 0);
    enqueue(&mut outbox, &ledger, 1, 5);
    assert_eq!(outbox.len(), 1);
    assert_eq!(outbox[0].created_at, 0);
}

#[test]
fn a_lease_keeps_others_away_until_it_runs_out() {
    let mut outbox = Vec::new();
    let mut ledger = Vec::new();
    enqueue(&mut outbox, &ledger, 1, 0);
    let mine = claim_due_outbox_leased(&mut outbox, &ledger, 10, 30, 30, 77, SEC);
    assert_eq!(mine.len(), 1);
    assert_eq!(mine[0].lease_token, Some(77));
    assert!(claim_due_outbox(&outbox, &ledger, 10, 30, 2 * SEC).is_empty());
    assert_eq!(claim_due_outbox(&outbox, &ledger, 10, 30, 32 * SEC).len(), 1);
    let key = mine[0].idempotency_key.clone();
    // A later claimer holds the row: the first one's mark does nothing.
    assert_eq!(claim_due_outbox_leased(&mut outbox, &ledger, 10, 30, 30, 78, 40 * SEC).len(), 1);
    assert!(!mark_outbox_success(&mut outbox, &mut ledger, &key, 77, 41 * SEC));
    assert!(mark_outbox_success(&mut outbox, &mut ledger, &key, 78, 41 * SEC));
    assert!(outbox.is_empty());
    assert_eq!(ledger[0].status, WebhookExecutionStatus::Success);
    enqueue(&mut outbox, &ledger, 1, 50 * SEC);
    assert!(outbox.is_empty());
}

#[test]
fn retries_wait_and_exhausted_rows_are_recorded() {
    let mut outbox = Vec::new();
    let mut ledger = Vec::new();
    enqueue(&mut outbox, &ledger, 1, 0);
    let row = claim_due_outbox_leased(&mut outbox, &ledger, 10, 30, 30, 1, SEC).remove(0);
    assert!(mark_outbox_retry(&mut outbox, &row.idempotency_key, 1, "refused", 8, 2 * SEC));
    assert_eq!(outbox[0].attempts, 1);
    assert_eq!(outbox[0].next_attempt_at, 10 * SEC);
    assert_eq!(outbox[0].last_error, Some("refused".to_string()));
    let row = claim_due_outbox_leased(&mut outbox, &ledger, 10, 30, 30, 2, 11 * SEC).remove(0);
    assert!(mark_outbox_exhausted(
        &mut outbox,
        &mut ledger,
        &row.idempotency_key,
        2,
        "gone",
        12 * SEC
    ));
    assert!(outbox.is_empty());
    assert_eq!(ledger[0].status, WebhookExecutionStatus::Exhausted);
    let listed =
        list_webhook_deliveries(&outbox, &ledger, Some(WebhookExecutionStatus::Exhausted), 10, 0);
    assert_eq!(listed.len(), 1);
    assert!(list_webhook_deliveries(&outbox, &ledger, Some(WebhookExecutionStatus::Pending), 10, 0)
        .is_empty());
}

#[test]
fn a_pending_start_holds_back_the_end() {
    let mut outbox = Vec::new();
    let mut ledger = Vec::new();
    let key = "1:start".to_string();
    assert!(try_claim_webhook_execution(
        &mut ledger,
        1,
        TriggerKind::Start,
        TriggerCondition::Success,
        &key,
        Some(30_000_000),
        0
    ));
    assert!(!try_claim_webhook_execution(
        &mut ledger,
        1,
        TriggerKind::Start,
        TriggerCondition::Success,
        &key,
        Some(30_000_000),
        SEC
    ));
    enqueue(&mut outbox, &ledger, 1, 0);
    assert!(claim_due_outbox(&outbox, &ledger, 10, 30, SEC).is_empty());
    complete_webhook_execution(&mut ledger, &key, true, 2 * SEC);
    assert_eq!(claim_due_outbox(&outbox, &ledger, 10, 30, 3 * SEC).len(), 1);
}

#[test]
fn a_stale_start_does_not_hold_back_for_ever() {
    let mut outbox = Vec::new();
    let mut ledger = Vec::new();
    let key = "1:start".to_string();
    try_claim_webhook_execution(
        &mut ledger,
        1,
        TriggerKind::Start,
        TriggerCondition::Success,
        &key,
        None,
        0,
    );
    enqueue(&mut outbox, &ledger, 1, 0);
    assert_eq!(claim_due_outbox(&outbox, &ledger, 10, 30, 31 * SEC).len(), 1);
}

#[test]
fn the_backlog_tells_ready_from_leased() {
    let mut outbox = Vec::new();
    let ledger = Vec::new();
    enqueue(&mut outbox, &ledger, 1, 0);
    enqueue(&mut outbox, &ledger, 2, 0);
    claim_due_outbox_leased(&mut outbox, &ledger, 1, 30, 30, 5, SEC);
    let stats = outbox_backlog_stats(&outbox, 2 * SEC);
    assert_eq!((stats.ready, stats.leased), (1, 1));
}

#[test]
fn the_backoff_doubles_up_to_its_cap() {
    let waits: Vec<i64> = (0..8).map(|n| compute_backoff(n, cfg())).collect();
    assert_eq!(waits, vec![2, 4, 8, 16, 32, 60, 60, 60]);
}

#[test]
fn a_delivery_round_plans_and_marks() {
    let mut s = Store::new();
    s.tasks = vec![task(1, StatusKind::Success), task(2, StatusKind::Success)];
    s.actions = vec![action(1)];
    enqueue_end_outbox(&mut s.outbox, &s.ledger, 1, StatusKind::Success, 0);
    enqueue_end_outbox(&mut s.outbox, &s.ledger, 2, StatusKind::Success, 0);
    let mut round = run_delivery_once(&mut s, cfg(), 5, SEC).unwrap();
    assert_eq!(round.processed, 2);
    // The second task has nothing to call: its event is done at once.
    assert_eq!(round.plans.len(), 1);
    assert_eq!(round.marks.len(), 1);
    assert_eq!(round.applied, vec![true]);
    assert_eq!(s.outbox.len(), 1);
    assert_eq!(s.ledger.len(), 1);
    let plan = round.plans.remove(0);
    let mark = deliver_plan(plan, &vec![Err("500".to_string())], cfg(), 2 * SEC);
    assert!(matches!(mark, MarkAction::Retry { backoff: 2, .. }));
    assert!(apply_mark(&mut s.outbox, &mut s.ledger, &mark, 2 * SEC));
    assert_eq!(s.outbox[0].attempts, 1);
    let mut round = run_delivery_once(&mut s, cfg(), 6, 10 * SEC).unwrap();
    let plan = round.plans.remove(0);
    let mark = deliver_plan(plan, &vec![Ok(())], cfg(), 11 * SEC);
    assert!(matches!(mark, MarkAction::Success { .. }));
    assert!(apply_mark(&mut s.outbox, &mut s.ledger, &mark, 11 * SEC));
    assert!(s.outbox.is_empty());
    assert_eq!(s.ledger.len(), 2);
}

#[test]
fn the_last_attempt_exhausts_a_delivery() {
    let mut s = Store::new();
    s.tasks = vec![task(1, StatusKind::Success)];
    s.actions = vec![action(1)];
    enqueue_end_outbox(&mut s.outbox, &s.ledger, 1, StatusKind::Success, 0);
    s.outbox[0].attempts = 2;
    let mut round = run_delivery_once(&mut s, cfg(), 5, SEC).unwrap();
    let plan = round.plans.remove(0);
    let mark = deliver_plan(plan, &vec![Err("gone".to_string())], cfg(), 2 * SEC);
    assert!(matches!(mark, MarkAction::Exhausted { .. }));
    assert!(apply_mark(&mut s.outbox, &mut s.ledger, &mark, 2 * SEC));
    assert_eq!(s.ledger[0].status, WebhookExecutionStatus::Exhausted);
}

#[test]
fn an_empty_batch_is_complete_at_once() {
    let mut s = Store::new();
    let hook = NewActionDto { kind: ActionKindEnum::Webhook, params: "{}".to_string() };
    insert_batch(&mut s.batches, 9, vec![hook], None, "{}".to_string(), 0);
    let n = init_batch_remaining(&mut s.batches, &mut s.outbox, &s.ledger, 9, 0, 1);
    assert_eq!(n, 1);
    assert_eq!(s.outbox[0].trigger, TriggerKind::BatchComplete);
}

#[test]
fn labels_and_lags() {
    assert_eq!(trigger_label(TriggerKind::End, TriggerCondition::Failure), "end_failure");
    assert_eq!(trigger_label(TriggerKind::BatchComplete, TriggerCondition::Success), "batch_complete");
    assert_eq!(lag_millis(0, 1_500_000), 1500);
    assert_eq!(lag_millis(10, 0), 0);
}

#[test]
fn delivery_settings_come_from_the_workers() {
    let w = WorkerConfig {
        loop_interval_ms: 1,
        timeout_check_interval_ms: 2,
        batch_flush_interval_ms: 3,
        webhook_delivery_interval_ms: 4,
        metrics_sampler_interval_ms: 5,
        claim_timeout_secs: 6,
        dead_end_cancel_enabled: true,
        start_batch_size: 7,
        timeout_batch_size: 8,
        webhook_concurrency: 9,
        batch_channel_capacity: 10,
        webhook_delivery_batch_size: 11,
        webhook_max_attempts: 12,
        webhook_retry_backoff_base_secs: 13,
        webhook_retry_backoff_cap_secs: 14,
        webhook_delivery_lease_secs: 15,
        webhook_delivery_concurrency: 16,
    };
    assert_eq!(
        delivery_config(&w),
        DeliveryConfig {
            batch_size: 11,
            max_attempts: 12,
            backoff_base_secs: 13,
            backoff_cap_secs: 14,
            lease_secs: 15,
            concurrency: 16,
            start_stale_secs: 6,
        }
    );
}

#[test]
fn loaded_events_are_tested() {
    let mut s = Store::new();
    enqueue_end_outbox(&mut s.outbox, &s.ledger, 1, StatusKind::Success, 0);
    enqueue_end_outbox(&mut s.outbox, &s.ledger, 2, StatusKind::Success, 0);
    assert!(s.is_events_wf());
    s.outbox[1].attempts = i32::MAX;
    assert!(!s.is_events_wf());
    s.outbox[1].attempts = 0;
    let key = s.outbox[1].idempotency_key.clone();
    s.outbox[1].idempotency_key = s.outbox[0].idempotency_key.clone();
    assert!(!s.is_events_wf());
    s.outbox[1].idempotency_key = key;
    s.tasks = vec![task(1, StatusKind::Success), task(2, StatusKind::Success)];
    run_delivery_once(&mut s, cfg(), 5, SEC).unwrap();
    assert_eq!((s.outbox.len(), s.ledger.len()), (0, 2));
    assert!(s.is_events_wf());
    s.ledger[1].idempotency_key = s.ledger[0].idempotency_key.clone();
    assert!(!s.is_events_wf());
}
