use arcrun::metrics::{
    init_metrics, inc_webhooks_in_flight, read_counter, read_gauge, record_batch_channel_send,
    record_db_query_with_slow_warning, record_retention_cleanup, record_status_transition,
    record_task_cancelled, record_task_created, record_tasks_cancelled, record_webhook_execution,
    record_worker_loop_iteration, set_batch_updater_pending_tasks, set_tasks_by_status_snapshot,
    set_webhook_outbox_backlog, Metrics, WebhooksInFlightGuard,
};
use arcrun::models::StatusKind;
use arcrun::workers::change_metrics::{
    record_changes, record_insertion, record_mark, Cause, StatusChange,
};
use arcrun::workers::delivery_loop::MarkAction;
use arcrun::workers::metrics_sampler::{pool_occupancy, sample_metrics};

/// The value of a sample, by the family's name and its label values.
fn sample(m: &Metrics, family: &str, labels: &[&str]) -> Option<i64> {
    let families = m.registry.gather();
    for f in families.iter().filter(|f| f.name() == family) {
        for s in f.get_metric() {
            let given: Vec<&str> = s.get_label().iter().map(|l| l.value()).collect();
            let mut wanted: Vec<&str> = labels.to_vec();
            let mut found = given.clone();
            wanted.sort();
            found.sort();
            if wanted == found {
                let counter = s.get_counter().get_value();
                let gauge = s.get_gauge().get_value();
                return Some((counter + gauge) as i64);
            }
        }
    }
    None
}

#[test]
fn metrics_start_at_zero_and_count() {
    let mut m = init_metrics().unwrap();
    assert_eq!(read_counter(&m.tasks_created_total), 0);
    record_task_created(&mut m);
    record_task_created(&mut m);
    record_task_cancelled(&mut m);
    record_tasks_cancelled(&mut m, 4);
    assert_eq!(read_counter(&m.tasks_created_total), 2);
    assert_eq!(read_counter(&m.tasks_cancelled_total), 5);
    assert_eq!(sample(&m, "tasks_created_total", &[]), Some(2));
}

#[test]
fn families_count_by_label() {
    let mut m = init_metrics().unwrap();
    record_status_transition(&mut m, "Claimed", "Running");
    record_status_transition(&mut m, "Claimed", "Running");
    record_status_transition(&mut m, "Running", "Failure");
    assert_eq!(sample(&m, "task_status_transitions_total", &["Claimed", "Running"]), Some(2));
    assert_eq!(sample(&m, "task_status_transitions_total", &["Running", "Failure"]), Some(1));
    record_webhook_execution(&mut m, "end", "success");
    assert_eq!(sample(&m, "webhook_executions_total", &["end", "success"]), Some(1));
    assert_eq!(sample(&m, "webhook_attempts_total", &["end", "success"]), Some(1));
}

#[test]
fn a_snapshot_replaces_the_last_one() {
    let mut m = init_metrics().unwrap();
    set_tasks_by_status_snapshot(&mut m, &vec![("Pending".to_string(), 3), ("Running".to_string(), 1)]);
    set_tasks_by_status_snapshot(&mut m, &vec![("Running".to_string(), 2)]);
    assert_eq!(sample(&m, "tasks_by_status", &["Pending"]), None);
    assert_eq!(sample(&m, "tasks_by_status", &["Running"]), Some(2));
}

#[test]
fn calls_in_flight_are_counted_up_and_down() {
    let mut m = init_metrics().unwrap();
    inc_webhooks_in_flight(&mut m, "start");
    let guard = WebhooksInFlightGuard::new(&mut m, "start");
    assert_eq!(read_gauge(&mut m.webhooks_in_flight, "start"), 2);
    guard.release(&mut m);
    assert_eq!(read_gauge(&mut m.webhooks_in_flight, "start"), 1);
    assert_eq!(read_gauge(&mut m.webhooks_in_flight, "end"), 0);
}

#[test]
fn gauges_take_their_value() {
    let mut m = init_metrics().unwrap();
    set_batch_updater_pending_tasks(&mut m, 12);
    record_batch_channel_send(&mut m, 90);
    set_webhook_outbox_backlog(&mut m, 4, 5);
    record_worker_loop_iteration(&mut m, "start", 1_700_000_000);
    assert_eq!(sample(&m, "batch_updater_pending_tasks", &[]), Some(12));
    assert_eq!(sample(&m, "batch_channel_capacity_available", &[]), Some(90));
    assert_eq!(read_counter(&m.batch_update_events_total), 1);
    assert_eq!(read_gauge(&mut m.webhook_outbox_pending, "ready"), 4);
    assert_eq!(read_gauge(&mut m.webhook_outbox_pending, "leased"), 5);
    assert_eq!(sample(&m, "worker_loop_iterations_total", &["start"]), Some(1));
    assert_eq!(
        sample(&m, "worker_loop_last_iteration_timestamp_seconds", &["start"]),
        Some(1_700_000_000)
    );
}

#[test]
fn only_slow_queries_are_counted() {
    let mut m = init_metrics().unwrap();
    assert!(!record_db_query_with_slow_warning(&mut m, "list", 100, 100));
    assert!(record_db_query_with_slow_warning(&mut m, "list", 101, 100));
    assert_eq!(sample(&m, "slow_queries_total", &["list"]), Some(1));
    record_retention_cleanup(&mut m, "success", 7);
    record_retention_cleanup(&mut m, "error", 0);
    assert_eq!(read_counter(&m.retention_tasks_cleaned), 7);
    assert_eq!(sample(&m, "retention_cleanup_runs_total", &["error"]), Some(1));
}

#[test]
fn the_sampler_keeps_what_it_could_not_count() {
    let mut m = init_metrics().unwrap();
    assert_eq!(pool_occupancy(5, 2), (3, 2));
    assert_eq!(pool_occupancy(1, 2), (0, 2));
    sample_metrics(&mut m, 5, 2, Some(&vec![("Pending".to_string(), 3)]), None);
    sample_metrics(&mut m, 6, 1, None, Some(&vec![("k".to_string(), 4)]));
    assert_eq!(read_gauge(&mut m.db_pool_connections, "in_use"), 5);
    assert_eq!(read_gauge(&mut m.db_pool_connections, "idle"), 1);
    assert_eq!(sample(&m, "tasks_by_status", &["Pending"]), Some(3));
    assert_eq!(sample(&m, "running_tasks_by_kind", &["k"]), Some(4));
}

#[test]
fn the_gauge_counts_the_live_guards() {
    let mut m = init_metrics().unwrap();
    let a = WebhooksInFlightGuard::new(&mut m, "start");
    let b = WebhooksInFlightGuard::new(&mut m, "start");
    let c = WebhooksInFlightGuard::new(&mut m, "delivery");
    assert_eq!(read_gauge(&mut m.webhooks_in_flight, "start"), 2);
    a.release(&mut m);
    assert_eq!(read_gauge(&mut m.webhooks_in_flight, "start"), 1);
    assert_eq!(read_gauge(&mut m.webhooks_in_flight, "delivery"), 1);
    b.release(&mut m);
    c.release(&mut m);
    assert_eq!(read_gauge(&mut m.webhooks_in_flight, "start"), 0);
    assert_eq!(read_gauge(&mut m.webhooks_in_flight, "delivery"), 0);
}

#[test]
fn every_metric_is_in_the_registry_under_its_name() {
    let m = init_metrics().unwrap();
    let names: Vec<String> = m.registry.gather().iter().map(|f| f.name().to_string()).collect();
    for name in [
        "tasks_created_total",
        "tasks_cancelled_total",
        "tasks_timed_out_total",
        "tasks_unblocked_total",
        "tasks_failed_by_dependency_total",
        "tasks_canceled_dead_end_total",
        "batches_completed_total",
        "batch_updater_pending_tasks",
    ] {
        assert!(names.contains(&name.to_string()), "{}", name);
    }
}

fn moved(id: u128, from: StatusKind, to: StatusKind) -> StatusChange {
    StatusChange { id, from, to }
}

#[test]
fn the_end_of_a_task_is_counted_with_what_follows() {
    let mut m = init_metrics().unwrap();
    let changes = vec![
        moved(1, StatusKind::Running, StatusKind::Failure),
        moved(2, StatusKind::Waiting, StatusKind::Failure),
        moved(3, StatusKind::Waiting, StatusKind::Pending),
        moved(4, StatusKind::Running, StatusKind::Canceled),
    ];
    record_changes(&mut m, Cause::Update { id: 1 }, &changes, 1);
    let transitions = "task_status_transitions_total";
    assert_eq!(sample(&m, transitions, &["Running", "failure"]), Some(1));
    assert_eq!(sample(&m, transitions, &["Waiting", "Pending"]), Some(1));
    assert_eq!(sample(&m, transitions, &["running", "Canceled"]), Some(1));
    assert_eq!(sample(&m, "dependency_propagations_total", &["failure"]), Some(2));
    assert_eq!(read_counter(&m.tasks_unblocked), 1);
    assert_eq!(read_counter(&m.tasks_failed_by_dependency), 1);
    assert_eq!(read_counter(&m.tasks_canceled_dead_end_total), 1);
    assert_eq!(read_counter(&m.batches_completed_total), 1);
    assert_eq!(read_counter(&m.tasks_timed_out_total), 0);
    assert_eq!(read_counter(&m.tasks_cancelled_total), 0);
}

#[test]
fn each_cause_is_counted_in_its_own_way() {
    let mut m = init_metrics().unwrap();
    let transitions = "task_status_transitions_total";
    let done = vec![moved(1, StatusKind::Running, StatusKind::Success)];
    record_changes(&mut m, Cause::Update { id: 1 }, &done, 0);
    assert_eq!(sample(&m, transitions, &["Running", "success"]), Some(1));
    assert_eq!(sample(&m, "dependency_propagations_total", &["success"]), Some(1));
    let late = vec![moved(1, StatusKind::Running, StatusKind::Failure)];
    record_changes(&mut m, Cause::Timeout { id: 1 }, &late, 0);
    assert_eq!(sample(&m, transitions, &["Running", "Failure"]), Some(1));
    assert_eq!(read_counter(&m.tasks_timed_out_total), 1);
    let gone = vec![moved(1, StatusKind::Pending, StatusKind::Canceled)];
    record_changes(&mut m, Cause::Cancel { id: 1 }, &gone, 0);
    assert_eq!(read_counter(&m.tasks_cancelled_total), 1);
    assert_eq!(sample(&m, transitions, &["pending", "Canceled"]), None);
    let claimed = vec![
        moved(1, StatusKind::Pending, StatusKind::Claimed),
        moved(2, StatusKind::Pending, StatusKind::Claimed),
    ];
    record_changes(&mut m, Cause::Claim, &claimed, 0);
    assert_eq!(sample(&m, transitions, &["Pending", "Claimed"]), Some(2));
    let started = vec![moved(1, StatusKind::Claimed, StatusKind::Running)];
    record_changes(&mut m, Cause::Start { id: 1 }, &started, 0);
    assert_eq!(sample(&m, transitions, &["Claimed", "Running"]), Some(1));
    let broken = vec![moved(1, StatusKind::Claimed, StatusKind::Failure)];
    record_changes(&mut m, Cause::Start { id: 1 }, &broken, 0);
    assert_eq!(sample(&m, "dependency_propagations_total", &["failure"]), Some(3));
    let stale = vec![moved(1, StatusKind::Claimed, StatusKind::Pending)];
    record_changes(&mut m, Cause::Requeue, &stale, 0);
    assert_eq!(sample(&m, transitions, &["Claimed", "Pending"]), Some(1));
    record_changes(&mut m, Cause::Other, &stale, 0);
    assert_eq!(sample(&m, transitions, &["Claimed", "Pending"]), Some(1));
}

#[test]
fn created_dependent_and_skipped_tasks_are_counted() {
    let mut m = init_metrics().unwrap();
    record_insertion(&mut m, 3, 2, 1);
    assert_eq!(read_counter(&m.tasks_created_total), 3);
    assert_eq!(read_counter(&m.tasks_with_dependencies), 2);
    assert_eq!(read_counter(&m.tasks_deduped_total), 1);
}

#[test]
fn a_mark_counts_by_whether_it_took_effect() {
    let mut m = init_metrics().unwrap();
    let success = MarkAction::Success {
        key: "k".to_string(),
        lease_token: 5,
        lag_millis: None,
        label: "end_success",
    };
    let retry = MarkAction::Retry {
        key: "k".to_string(),
        lease_token: 5,
        error: "e".to_string(),
        backoff: 2,
        label: "cancel",
    };
    record_mark(&mut m, &success, Some(true));
    record_mark(&mut m, &success, Some(false));
    record_mark(&mut m, &retry, Some(true));
    record_mark(&mut m, &retry, None);
    assert_eq!(sample(&m, "webhook_delivery_success_total", &["end_success"]), Some(1));
    assert_eq!(sample(&m, "webhook_delivery_retries_total", &["cancel"]), Some(1));
    assert_eq!(sample(&m, "webhook_delivery_exhausted_total", &["cancel"]), None);
    assert_eq!(sample(&m, "webhook_mark_failures_total", &["retry"]), Some(1));
}
