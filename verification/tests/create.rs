use arcrun::action::{HttpVerb, WebhookParams};
use arcrun::config::{RetentionConfig, SecurityConfig};
use arcrun::db::batch_listing::get_batch_stats;
use arcrun::db::task_insert::{
    handle_dedupe, insert_chunks, insert_tasks, lock_order, plan_dedupe, IdMapping, BIND_BUDGET,
};
use arcrun::dtos::{Dependency, NewTaskDto};
use arcrun::handlers::create::{
    add_task, check_new_batch, count_dependent, BatchParts, BatchRun, CreateTaskBody,
};
use arcrun::handlers::Nudges;
use arcrun::models::{
    ActionKindEnum, Matcher, NewActionDto, RuleSlot, Rules, StatusKind, Task, TaskArchive,
    TriggerKind,
};
use arcrun::store::Store;
use arcrun::validation::tasks::validate_task_batch;
use arcrun::workers::retention::run_retention_tick;

fn task(id: u128, status: StatusKind) -> Task {
    Task {
        id,
        name: "t".to_string(),
        kind: "k".to_string(),
        status,
        timeout: 60,
        created_at: id as i64,
        started_at: None,
        last_updated: 0,
        metadata: "{}".to_string(),
        ended_at: None,
        start_condition: Rules(Vec::new()),
        wait_success: 0,
        wait_finished: 0,
        success: 0,
        failures: 0,
        failure_reason: None,
        batch_id: Some(9),
        expected_count: None,
        dead_end_barrier: false,
        priority: 0,
        claimed_slot_keys: None,
        capacity_charge: None,
    }
}

fn action() -> NewActionDto {
    NewActionDto { kind: ActionKindEnum::Webhook, params: "{}".to_string() }
}

fn dto(id: &str, deps: Vec<(&str, bool)>) -> NewTaskDto {
    NewTaskDto {
        id: id.to_string(),
        name: id.to_string(),
        kind: "k".to_string(),
        timeout: None,
        metadata: None,
        rules: None,
        dependencies: Some(
            deps.into_iter()
                .map(|d| Dependency { id: d.0.to_string(), requires_success: d.1 })
                .collect(),
        ),
        on_start: action(),
        on_failure: Some(vec![action()]),
        on_success: None,
        dedupe_strategy: None,
        expected_count: None,
        dead_end_barrier: None,
        priority: None,
    }
}

fn matcher(kind: &str, fields: &[&str]) -> Matcher {
    Matcher {
        kind: kind.to_string(),
        status: StatusKind::Pending,
        fields: fields.iter().map(|f| f.to_string()).collect(),
    }
}

fn parts(tasks: Vec<NewTaskDto>) -> BatchParts {
    BatchParts {
        tasks,
        on_batch_complete: Some(vec![action()]),
        scope: None,
        metadata: None,
    }
}

#[test]
fn a_graph_starts_where_nothing_is_waited_for() {
    let mut s = Store::new();
    let mut ids = IdMapping::new();
    let dtos = vec![dto("a", vec![]), dto("b", vec![("a", true)]), dto("c", vec![("a", false), ("b", true)])];
    let r = insert_tasks(
        &mut s,
        &mut ids,
        dtos,
        &vec![1, 2, 3],
        &vec![true, true, true],
        Some(9),
        5,
    );
    assert_eq!(r.iter().map(|t| t.id).collect::<Vec<u128>>(), vec![1, 2, 3]);
    assert_eq!(s.tasks[0].status, StatusKind::Pending);
    assert_eq!(s.tasks[1].status, StatusKind::Waiting);
    assert_eq!((s.tasks[2].wait_finished, s.tasks[2].wait_success), (2, 1));
    assert_eq!(s.links.len(), 3);
    assert_eq!(s.tasks[0].timeout, 60);
    assert_eq!(s.actions.len(), 6);
    assert_eq!(s.actions[0].trigger, TriggerKind::Start);
}

#[test]
fn a_dependency_on_a_skipped_task_is_ignored() {
    let mut s = Store::new();
    let mut ids = IdMapping::new();
    let mut first = dto("a", vec![]);
    first.dedupe_strategy = Some(vec![matcher("k", &["a"])]);
    let r = insert_tasks(
        &mut s,
        &mut ids,
        vec![first, dto("b", vec![("a", true)])],
        &vec![1, 2],
        &vec![false, true],
        None,
        5,
    );
    assert_eq!(r.len(), 1);
    assert_eq!(s.tasks[0].id, 2);
    assert_eq!(s.tasks[0].status, StatusKind::Pending);
    assert!(s.links.is_empty());
}

#[test]
fn dedupe_rules_without_their_metadata_are_skipped() {
    let rules = vec![
        matcher("k", &["b", "a"]),
        matcher("k", &["z"]),
        matcher("l", &[]),
        matcher("k", &["a", "b", "a"]),
    ];
    let metadata = Some("{\"a\":\"x\",\"b\":{\"c\":[1,2]},\"d\":0}".to_string());
    let plan = plan_dedupe(&rules, &metadata);
    assert_eq!(plan.iter().map(|c| c.rule).collect::<Vec<usize>>(), vec![0, 2, 3]);
    let pattern = vec![
        ("a".to_string(), "\"x\"".to_string()),
        ("b".to_string(), "{\"c\":[1,2]}".to_string()),
    ];
    assert_eq!(plan[0].pattern, pattern);
    assert_eq!(plan[0].lock_text, "1:k7:pending1:a3:\"x\"1:b11:{\"c\":[1,2]}");
    assert!(plan[1].pattern.is_empty());
    assert_eq!(plan[1].lock_text, "1:l7:pending");
    // The same comparison takes the same lock.
    assert_eq!(plan[2].pattern, pattern);
    assert_eq!(plan[2].lock_text, plan[0].lock_text);
    // Without metadata only rules that compare no fields are left.
    let plan = plan_dedupe(&rules, &None);
    assert_eq!(plan.iter().map(|c| c.rule).collect::<Vec<usize>>(), vec![2]);
}

#[test]
fn dedupe_checks_take_each_lock_once_in_order() {
    assert_eq!(lock_order(&vec![7, 3, 7, -1, 3]), vec![-1, 3, 7]);
    assert!(lock_order(&vec![]).is_empty());
    assert!(handle_dedupe(&vec![0, 0]));
    assert!(!handle_dedupe(&vec![0, 2]));
    assert!(handle_dedupe(&vec![]));
}

#[test]
fn inserts_stay_within_the_bind_budget() {
    let n = 3 * (BIND_BUDGET / 20) + 1;
    let chunks = insert_chunks(n, 20);
    assert_eq!(chunks[0].0, 0);
    assert_eq!(chunks.last().unwrap().1, n);
    assert!(chunks.iter().all(|c| (c.1 - c.0) * 20 <= BIND_BUDGET));
    assert!(insert_chunks(0, 20).is_empty());
}

#[test]
fn created_batches_wait_for_their_tasks() {
    let mut s = Store::new();
    let r = add_task(
        &mut s,
        Ok(()),
        parts(vec![dto("a", vec![]), dto("b", vec![("a", true)])]),
        &vec![true, true],
        9,
        5,
    );
    assert_eq!(r.status, 201);
    assert_eq!(r.batch_id, 9);
    assert!(r.details.is_empty());
    assert_eq!(r.nudges, Nudges { start: true, delivery: false });
    assert_eq!(r.tasks.len(), 2);
    assert!(r.tasks[0].id != r.tasks[1].id);
    assert_eq!(uuid::Uuid::from_u128(r.tasks[0].id).get_version_num(), 7);
    assert_eq!(s.batches[0].remaining, 2);
    assert_eq!(s.batches[0].metadata, "{}");
    assert!(s.outbox.is_empty());
    let stats = get_batch_stats(&s.tasks, 9).unwrap();
    assert_eq!((stats.total, stats.pending, stats.waiting), (2, 1, 1));
    assert!(get_batch_stats(&s.tasks, 8).is_none());
}

#[test]
fn an_all_deduped_batch_completes_at_once() {
    let mut s = Store::new();
    let mut d = dto("a", vec![]);
    d.dedupe_strategy = Some(vec![matcher("k", &["a"])]);
    let r = add_task(&mut s, Ok(()), parts(vec![d]), &vec![false], 9, 5);
    assert_eq!(r.status, 204);
    assert_eq!(r.batch_id, 9);
    assert_eq!(r.nudges, Nudges { start: false, delivery: true });
    assert_eq!(s.outbox.len(), 1);
    assert_eq!(s.outbox[0].batch_id, Some(9));
}

#[test]
fn a_batch_created_in_steps_is_the_same() {
    let mut skipped = dto("b", vec![("a", true)]);
    skipped.dedupe_strategy = Some(vec![matcher("k", &["a"])]);
    let mut s = Store::new();
    let BatchParts { on_batch_complete, scope, metadata, .. } = parts(vec![]);
    let mut run =
        BatchRun::begin(&mut s, Ok(()), 9, on_batch_complete, scope, metadata, 5).unwrap();
    let a = run.insert(&mut s, dto("a", vec![]), true, 5).unwrap();
    assert_eq!(run.insert(&mut s, skipped, false, 5), None);
    let c = run.insert(&mut s, dto("c", vec![("a", true), ("b", true)]), true, 5).unwrap();
    assert_eq!(s.tasks.iter().map(|t| t.id).collect::<Vec<u128>>(), vec![a, c]);
    assert_eq!((s.tasks[1].wait_finished, s.tasks[1].wait_success), (1, 1));
    assert_eq!(s.links.len(), 1);
    assert_eq!(count_dependent(&s.tasks, 0), 1);
    assert_eq!(count_dependent(&s.tasks, 2), 0);
    let r = run.finish(&mut s, 6);
    assert_eq!(r.status, 201);
    assert_eq!(r.tasks.iter().map(|t| t.id).collect::<Vec<u128>>(), vec![a, c]);
    assert_eq!(s.batches[0].remaining, 2);
    assert!(s.outbox.is_empty());
}

#[test]
fn a_refused_request_is_answered_and_changes_nothing() {
    let wrong = vec!["tasks[0].name: Task name cannot be empty".to_string(), "x".to_string()];
    let mut s = Store::new();
    let r = add_task(&mut s, Err(wrong.clone()), parts(vec![dto("a", vec![])]), &vec![], 9, 5);
    assert_eq!((r.status, r.batch_id), (400, 9));
    assert_eq!(r.details, wrong);
    assert!(r.tasks.is_empty());
    assert_eq!(r.nudges, Nudges { start: false, delivery: false });
    let BatchParts { on_batch_complete, scope, metadata, .. } = parts(vec![]);
    let r = BatchRun::begin(&mut s, Err(wrong.clone()), 9, on_batch_complete, scope, metadata, 5)
        .err()
        .unwrap();
    assert_eq!((r.status, r.batch_id), (400, 9));
    assert_eq!(r.details, wrong);
    assert!(s.tasks.is_empty() && s.batches.is_empty() && s.outbox.is_empty());
}

#[test]
fn a_bare_list_has_no_batch_row() {
    let mut s = Store::new();
    let p = CreateTaskBody::Tasks(vec![dto("a", vec![])]).into_parts();
    let r = add_task(&mut s, Ok(()), p, &vec![true], 9, 5);
    assert_eq!(r.status, 201);
    assert!(s.batches.is_empty());
    assert_eq!(s.tasks[0].batch_id, Some(9));
}

fn hook(url: &str) -> Result<WebhookParams, String> {
    Ok(WebhookParams { url: url.to_string(), verb: HttpVerb::Post, body: None, headers: None })
}

#[test]
fn the_first_failing_check_answers() {
    let config = SecurityConfig::default();
    let good = vec![hook("https://example.com/")];
    let bad = vec![hook("https://example.com/"), hook("http://localhost/")];
    assert!(check_new_batch(vec![], Some(&good), vec![], 5, &config).is_ok());
    assert_eq!(
        check_new_batch(vec!["x".to_string()], Some(&bad), vec![], 5, &config),
        Err(vec!["x".to_string()])
    );
    assert_eq!(
        check_new_batch(vec![], Some(&bad), vec!["m".to_string()], 5, &config),
        Err(vec![
            "on_batch_complete[1].params: URL host 'localhost' is not allowed (internal/reserved)"
                .to_string()
        ])
    );
    assert_eq!(
        check_new_batch(vec![], Some(&bad), vec![], 1, &config),
        Err(vec!["on_batch_complete cannot exceed 1 actions (received 2)".to_string()])
    );
    assert_eq!(
        check_new_batch(vec![], None, vec!["m".to_string()], 1, &config),
        Err(vec!["m".to_string()])
    );
}

const DAY: i64 = 86_400_000_000;

fn retention(enabled: bool, archive_days: u32) -> RetentionConfig {
    RetentionConfig {
        enabled,
        retention_days: 1,
        cleanup_interval_secs: 60,
        batch_size: 10,
        archive_retention_days: archive_days,
    }
}

#[test]
fn retention_archives_old_terminal_tasks() {
    let mut s = Store::new();
    let mut old = task(1, StatusKind::Success);
    old.ended_at = Some(0);
    let mut fresh = task(2, StatusKind::Success);
    fresh.ended_at = Some(2 * DAY);
    s.tasks = vec![old, fresh, task(3, StatusKind::Running)];
    s.slots = vec![
        RuleSlot { lock_key: "conc:a".to_string(), used: 0 },
        RuleSlot { lock_key: "conc:b".to_string(), used: 1 },
    ];
    let r = run_retention_tick(&mut s, &retention(false, 1), 2 * DAY + 1);
    assert_eq!((r.archived, r.purged, r.slots), (None, None, 1));
    assert_eq!(s.tasks.len(), 3);
    let r = run_retention_tick(&mut s, &retention(true, 0), 2 * DAY + 1);
    assert_eq!((r.archived, r.purged, r.slots), (Some(1), None, 0));
    assert_eq!(s.tasks.len(), 2);
    assert_eq!(s.archive.len(), 1);
    assert_eq!(s.archive[0].task.id, 1);
}

#[test]
fn retention_purges_the_archive_only_where_asked() {
    let mut s = Store::new();
    s.archive = vec![
        TaskArchive { task: task(1, StatusKind::Success), archived_at: 0 },
        TaskArchive { task: task(2, StatusKind::Success), archived_at: 5 * DAY },
    ];
    let r = run_retention_tick(&mut s, &retention(true, 2), 5 * DAY);
    assert_eq!(r.purged, Some(1));
    assert_eq!(s.archive.len(), 1);
    assert_eq!(s.archive[0].task.id, 2);
}

#[test]
fn every_error_of_a_request_is_reported() {
    let config = SecurityConfig::default();
    let mut blank = dto("b", vec![("a", true), ("c", true)]);
    blank.name = "  ".to_string();
    blank.kind = String::new();
    let tasks = vec![dto("a", vec![]), blank, dto("c", vec![("c", false)])];
    let params = vec![
        vec![hook("https://example.com/")],
        vec![Err("missing field `url`".to_string())],
        vec![hook("https://example.com/"), hook("http://127.0.0.1/")],
    ];
    let errors = validate_task_batch(&tasks, &params, &config);
    assert_eq!(
        errors[..5],
        [
            "tasks[1].name: Task name cannot be empty".to_string(),
            "tasks[1].kind: Task kind cannot be empty".to_string(),
            "tasks[1].dependencies: no earlier task with id c".to_string(),
            "tasks[1].params: Invalid webhook params: missing field `url`".to_string(),
            "tasks[2].dependencies: no earlier task with id c".to_string(),
        ]
    );
    assert_eq!(errors.len(), 6);
    assert!(errors[5].starts_with("tasks[2].params: "));
}

#[test]
fn a_request_that_points_back_is_accepted() {
    let tasks = vec![dto("a", vec![]), dto("b", vec![("a", true)])];
    let params = vec![vec![hook("https://example.com/")], vec![]];
    assert!(validate_task_batch(&tasks, &params, &SecurityConfig::default()).is_empty());
}
