use arcrun::config::{
    create_circuit_breaker, CircuitBreakerConfig, CircuitBreakerSettings, Config,
    PaginationConfig, PoolConfig, RetentionConfig, SecurityConfig, WorkerConfig,
};
use arcrun::db::task_query::{
    find_detailed_task_by_id, get_dag_for_batch, list_pending_page, list_task_filtered_paged,
    PendingCursor,
};
use arcrun::dtos::query::{FilterDto, Pagination, PaginationDto, WebhookDeliveryFilterDto};
use arcrun::models::{
    Action, ActionKindEnum, Link, Rules, StatusKind, Task, TaskArchive, TriggerCondition,
    TriggerKind, WebhookExecutionStatus,
};

fn config() -> Config {
    Config {
        port: 8080,
        host_url: "https://arc.example".to_string(),
        database_url: "postgres://db/arcrun".to_string(),
        auth_token: None,
        pagination: PaginationConfig::default(),
        security: SecurityConfig::default(),
        pool: PoolConfig {
            max_size: 10,
            min_idle: 1,
            max_lifetime_secs: 1800,
            idle_timeout_secs: 600,
            connection_timeout_secs: 30,
        },
        worker: WorkerConfig {
            loop_interval_ms: 1000,
            timeout_check_interval_ms: 1000,
            batch_flush_interval_ms: 100,
            webhook_delivery_interval_ms: 1000,
            metrics_sampler_interval_ms: 15000,
            claim_timeout_secs: 30,
            dead_end_cancel_enabled: true,
            start_batch_size: 50,
            timeout_batch_size: 100,
            webhook_concurrency: 10,
            batch_channel_capacity: 100,
            webhook_delivery_batch_size: 50,
            webhook_max_attempts: 10,
            webhook_retry_backoff_base_secs: 2,
            webhook_retry_backoff_cap_secs: 300,
            webhook_delivery_lease_secs: 60,
            webhook_delivery_concurrency: 10,
        },
        retention: RetentionConfig {
            enabled: false,
            retention_days: 30,
            cleanup_interval_secs: 3600,
            batch_size: 1000,
            archive_retention_days: 0,
        },
        circuit_breaker: CircuitBreakerSettings {
            enabled: true,
            failure_threshold: 5,
            failure_window_secs: 10,
            recovery_timeout_secs: 30,
            success_threshold: 2,
        },
    }
}

fn task(id: u128, status: StatusKind) -> Task {
    Task {
        id,
        name: format!("task {}", id),
        kind: "k".to_string(),
        status,
        timeout: 60,
        created_at: id as i64,
        started_at: None,
        last_updated: 0,
        metadata: "{}".to_string(),
        ended_at: None,
        start_condition: Rules(Vec::new()),
        wait_success: 0,
        wait_finished: 0,
        success: 0,
        failures: 0,
        failure_reason: None,
        batch_id: Some(7),
        expected_count: None,
        dead_end_barrier: false,
        priority: 0,
        claimed_slot_keys: None,
        capacity_charge: None,
    }
}

fn page(page: Option<i64>, page_size: Option<i64>) -> (i64, i64) {
    let p = PaginationDto { page, page_size }.resolve(&config());
    (p.offset, p.limit)
}

#[test]
fn pages_stay_within_the_limits() {
    assert_eq!(page(None, None), (0, 50));
    assert_eq!(page(Some(3), Some(20)), (60, 20));
    assert_eq!(page(Some(-1), Some(1000)), (0, 100));
    assert_eq!(page(Some(2), Some(0)), (100, 50));
    let (offset, limit) = page(Some(i64::MAX), Some(100));
    assert_eq!(limit, 100);
    assert_eq!(offset, (i64::MAX / 100) * 100);
}

#[test]
fn delivery_status_is_read_in_any_case() {
    let resolve = |s: &str| WebhookDeliveryFilterDto { status: Some(s.to_string()) }.resolve_status();
    assert_eq!(resolve(" Exhausted "), Ok(Some(WebhookExecutionStatus::Exhausted)));
    assert_eq!(resolve("PENDING"), Ok(Some(WebhookExecutionStatus::Pending)));
    assert_eq!(resolve("success"), Ok(Some(WebhookExecutionStatus::Success)));
    assert_eq!(resolve("failure"), Ok(Some(WebhookExecutionStatus::Failure)));
    assert_eq!(
        resolve("Lost"),
        Err("invalid status 'lost': expected one of pending, success, failure, exhausted"
            .to_string())
    );
    assert_eq!(WebhookDeliveryFilterDto { status: None }.resolve_status(), Ok(None));
}

fn filter(metadata: Option<&str>) -> FilterDto {
    FilterDto {
        name: Some("100%".to_string()),
        kind: None,
        status: None,
        timeout: None,
        metadata: metadata.map(|m| m.to_string()),
        batch_id: None,
    }
}

#[test]
fn a_malformed_metadata_filter_is_refused() {
    let f = filter(Some("{ \"a\" : 1 }")).resolve().unwrap();
    assert_eq!(f.name, "100\\%");
    assert_eq!(f.kind, "");
    assert_eq!(f.metadata, Some("{\"a\":1}".to_string()));
    let e = filter(Some("{a")).resolve().err().unwrap();
    assert!(e.starts_with("invalid `metadata` filter: expected valid JSON ("));
}

#[test]
fn pending_pages_follow_priority_and_age() {
    let mut high = task(3, StatusKind::Pending);
    high.priority = 5;
    let tasks = vec![
        task(1, StatusKind::Pending),
        task(2, StatusKind::Running),
        high,
        task(4, StatusKind::Pending),
    ];
    let first = list_pending_page(&tasks, None, 2);
    assert_eq!(first.iter().map(|t| t.id).collect::<Vec<u128>>(), vec![3, 1]);
    let cursor = PendingCursor::of_task(&first[1]);
    let rest = list_pending_page(&tasks, Some(&cursor), 2);
    assert_eq!(rest.iter().map(|t| t.id).collect::<Vec<u128>>(), vec![4]);
}

#[test]
fn lists_are_filtered_and_paged_newest_first() {
    let mut other = task(3, StatusKind::Pending);
    other.kind = "other".to_string();
    let tasks = vec![
        task(1, StatusKind::Pending),
        task(2, StatusKind::Pending),
        other,
        task(4, StatusKind::Success),
    ];
    let f = FilterDto {
        name: None,
        kind: Some("k".to_string()),
        status: Some(StatusKind::Pending),
        timeout: None,
        metadata: None,
        batch_id: Some(7),
    }
    .resolve()
    .unwrap();
    let all = list_task_filtered_paged(&tasks, Pagination { offset: 0, limit: 10 }, &f, &vec![]);
    assert_eq!(all.iter().map(|t| t.id).collect::<Vec<u128>>(), vec![2, 1]);
    let second = list_task_filtered_paged(&tasks, Pagination { offset: 1, limit: 1 }, &f, &vec![]);
    assert_eq!(second.iter().map(|t| t.id).collect::<Vec<u128>>(), vec![1]);
}

#[test]
fn a_metadata_filter_keeps_the_tasks_that_contain_it() {
    let tasks = vec![task(1, StatusKind::Pending), task(2, StatusKind::Pending)];
    let f = FilterDto {
        name: None,
        kind: None,
        status: None,
        timeout: None,
        metadata: Some("{\"a\":1}".to_string()),
        batch_id: None,
    }
    .resolve()
    .unwrap();
    let r = list_task_filtered_paged(&tasks, Pagination { offset: 0, limit: 10 }, &f, &vec![1]);
    assert_eq!(r.len(), 1);
    assert_eq!(r[0].id, 1);
}

#[test]
fn a_dag_holds_the_tasks_and_links_of_its_batch() {
    let mut foreign = task(3, StatusKind::Pending);
    foreign.batch_id = None;
    let tasks = vec![task(2, StatusKind::Waiting), task(1, StatusKind::Pending), foreign];
    let links = vec![
        Link { parent_id: 1, child_id: 2, requires_success: true },
        Link { parent_id: 3, child_id: 9, requires_success: false },
    ];
    let dag = get_dag_for_batch(&tasks, &links, 7);
    assert_eq!(dag.tasks.iter().map(|t| t.id).collect::<Vec<u128>>(), vec![1, 2]);
    assert_eq!(dag.links, vec![Link { parent_id: 1, child_id: 2, requires_success: true }]);
}

#[test]
fn archived_tasks_are_still_found() {
    let action = Action {
        id: None,
        task_id: 1,
        kind: ActionKindEnum::Webhook,
        params: "{}".to_string(),
        trigger: TriggerKind::End,
        condition: TriggerCondition::Success,
        success: None,
    };
    let archive = vec![TaskArchive { task: task(2, StatusKind::Success), archived_at: 5 }];
    let tasks = vec![task(1, StatusKind::Running)];
    let live = find_detailed_task_by_id(&tasks, &vec![action], &archive, 1).unwrap();
    assert_eq!(live.actions.len(), 1);
    let old = find_detailed_task_by_id(&tasks, &vec![], &archive, 2).unwrap();
    assert_eq!(old.task.status, StatusKind::Success);
    assert!(old.actions.is_empty());
    assert!(find_detailed_task_by_id(&tasks, &vec![], &archive, 3).is_none());
}

#[test]
fn a_disabled_breaker_practically_never_opens() {
    let mut settings = config().circuit_breaker;
    assert_eq!(
        create_circuit_breaker(&settings),
        CircuitBreakerConfig {
            failure_threshold: 5,
            failure_window_secs: 10,
            recovery_timeout_secs: 30,
            success_threshold: 2,
        }
    );
    settings.enabled = false;
    assert_eq!(create_circuit_breaker(&settings).failure_threshold, u32::MAX);
}
