use arcrun::db::task_crud::{
    batch_claim_tasks, claim_task, claim_task_with_rules, mark_task_running,
    release_slots_for_tasks, ClaimResult,
};
use arcrun::handlers::batch::update_batch_rules;
use arcrun::models::{Matcher, RuleSlot, Rules, StatusKind, Strategy, Task};
use arcrun::rule::{capacity_slot_key, concurrency_slot_key};
use arcrun::workers::counter_flush::{handle_batch_with_counts, run_counter_flush_once};
use arcrun::workers::start_loop::{is_prefilter_blocked, run_claim_loop, EvaluationContext};

fn task(id: u128, status: StatusKind) -> Task {
    Task {
        id,
        name: "t".to_string(),
        kind: "k".to_string(),
        status,
        timeout: 60,
        created_at: id as i64,
        started_at: None,
        last_updated: 0,
        metadata: "{}".to_string(),
        ended_at: None,
        start_condition: Rules(Vec::new()),
        wait_success: 0,
        wait_finished: 0,
        success: 0,
        failures: 0,
        failure_reason: None,
        batch_id: Some(9),
        expected_count: None,
        dead_end_barrier: false,
        priority: 0,
        claimed_slot_keys: None,
        capacity_charge: None,
    }
}

const CONC_A: &str = "conc:1:a7:running";

const CAP_A: &str = "cap:1:a7:running";

fn matcher(kind: &str, fields: &[&str]) -> Matcher {
    Matcher {
        status: StatusKind::Running,
        kind: kind.to_string(),
        fields: fields.iter().map(|f| f.to_string()).collect(),
    }
}

fn conc(limit: i32, kind: &str) -> Strategy {
    Strategy::Concurency { max_concurency: limit, matcher: matcher(kind, &[]) }
}

fn cap(limit: i32, kind: &str) -> Strategy {
    Strategy::Capacity { max_capacity: limit, matcher: matcher(kind, &[]) }
}

fn per_region(limit: i32) -> Strategy {
    Strategy::Concurency { max_concurency: limit, matcher: matcher("a", &["region"]) }
}

fn ruled(id: u128, rules: Vec<Strategy>) -> Task {
    let mut t = task(id, StatusKind::Pending);
    t.start_condition = Rules(rules);
    t
}

fn used(slots: &Vec<RuleSlot>, key: &str) -> i32 {
    slots.iter().filter(|s| s.lock_key == key).map(|s| s.used).sum()
}

#[test]
fn a_full_slot_blocks_until_it_is_released() {
    let mut tasks = vec![ruled(1, vec![conc(1, "a")]), ruled(2, vec![conc(1, "a")])];
    let mut slots: Vec<RuleSlot> = Vec::new();
    let first = tasks[0].clone();
    let second = tasks[1].clone();
    assert!(matches!(
        claim_task_with_rules(&mut tasks, &mut slots, &first, 10),
        ClaimResult::Claimed
    ));
    assert_eq!(used(&slots, CONC_A), 1);
    assert_eq!(tasks[0].status, StatusKind::Claimed);
    assert_eq!(tasks[0].claimed_slot_keys, Some(vec![CONC_A.to_string()]));
    assert!(matches!(
        claim_task_with_rules(&mut tasks, &mut slots, &second, 10),
        ClaimResult::RuleBlocked
    ));
    assert!(matches!(
        claim_task_with_rules(&mut tasks, &mut slots, &first, 10),
        ClaimResult::AlreadyClaimed | ClaimResult::RuleBlocked
    ));
    release_slots_for_tasks(&mut tasks, &mut slots, &vec![1]);
    assert_eq!(used(&slots, CONC_A), 0);
    assert!(matches!(
        claim_task_with_rules(&mut tasks, &mut slots, &second, 10),
        ClaimResult::Claimed
    ));
}

#[test]
fn a_rule_without_its_metadata_blocks() {
    let mut tasks = vec![ruled(1, vec![per_region(5)])];
    let mut slots: Vec<RuleSlot> = Vec::new();
    let t = tasks[0].clone();
    assert!(matches!(
        claim_task_with_rules(&mut tasks, &mut slots, &t, 10),
        ClaimResult::RuleBlocked
    ));
    assert_eq!(tasks[0].status, StatusKind::Pending);
}

#[test]
fn progress_frees_capacity() {
    let mut t = ruled(1, vec![cap(10, "a")]);
    t.expected_count = Some(8);
    let mut tasks = vec![t];
    let mut slots: Vec<RuleSlot> = Vec::new();
    let first = tasks[0].clone();
    assert!(matches!(
        claim_task_with_rules(&mut tasks, &mut slots, &first, 10),
        ClaimResult::Claimed
    ));
    assert_eq!(used(&slots, CAP_A), 8);
    assert_eq!(handle_batch_with_counts(&mut tasks, &mut slots, &vec![(1, 3, 2)], 20).ok(), Some(1));
    assert_eq!(used(&slots, CAP_A), 3);
    assert_eq!(tasks[0].capacity_charge, Some(3));
    assert_eq!((tasks[0].success, tasks[0].failures), (3, 2));
}

#[test]
fn counts_of_terminal_tasks_are_frozen() {
    let mut tasks = vec![task(1, StatusKind::Success), task(2, StatusKind::Running)];
    tasks[1].success = i32::MAX - 1;
    let mut slots: Vec<RuleSlot> = Vec::new();
    let updates = vec![(1, 5, 0), (2, 7, 0)];
    assert!(run_counter_flush_once(&mut tasks, &mut slots, &updates, 20).is_ok());
    assert_eq!(tasks[0].success, 0);
    assert_eq!(tasks[1].success, i32::MAX);
}

#[test]
fn tasks_without_rules_are_claimed_together() {
    let mut tasks = vec![
        task(1, StatusKind::Pending),
        task(2, StatusKind::Paused),
        task(3, StatusKind::Pending),
    ];
    assert_eq!(batch_claim_tasks(&mut tasks, &vec![1, 2, 3], 10), vec![1, 3]);
    assert!(!claim_task(&mut tasks, 1, 11));
    assert!(mark_task_running(&mut tasks, 1, 12));
    assert_eq!(tasks[0].status, StatusKind::Running);
    assert_eq!(tasks[0].started_at, Some(12));
    assert!(!mark_task_running(&mut tasks, 2, 12));
}

#[test]
fn a_scan_claims_past_blocked_tasks_up_to_its_cap() {
    let mut tasks = vec![
        ruled(1, vec![conc(1, "a")]),
        ruled(2, vec![conc(1, "a")]),
        ruled(3, vec![conc(1, "a")]),
        ruled(4, vec![]),
        ruled(5, vec![]),
        ruled(6, vec![]),
    ];
    let mut slots: Vec<RuleSlot> = Vec::new();
    let round = run_claim_loop(&mut tasks, &mut slots, 3, 2, 10);
    let mut ids: Vec<u128> = round.claimed.iter().map(|t| t.id).collect();
    ids.sort();
    assert_eq!(ids, vec![1, 4, 5]);
    assert_eq!(tasks[5].status, StatusKind::Pending);
    assert_eq!(tasks[1].status, StatusKind::Pending);
    assert_eq!(used(&slots, CONC_A), 1);
}

#[test]
fn a_scan_claims_every_free_task() {
    let mut tasks: Vec<Task> = (1..8u128).map(|i| ruled(i, vec![])).collect();
    let mut slots: Vec<RuleSlot> = Vec::new();
    let round = run_claim_loop(&mut tasks, &mut slots, 0, 3, 10);
    assert_eq!(round.claimed.len(), 7);
    assert!(tasks.iter().all(|t| t.status == StatusKind::Claimed));
}

#[test]
fn a_slot_known_to_be_full_is_not_asked_again() {
    let mut ctx = EvaluationContext::new();
    let t = ruled(1, vec![conc(2, "a")]);
    assert!(!is_prefilter_blocked(&t, &ctx));
    ctx.learn(CONC_A.to_string(), 2);
    assert!(is_prefilter_blocked(&t, &ctx));
    // A higher limit on the same slot may still have room.
    let other = ruled(2, vec![conc(5, "a")]);
    assert!(!is_prefilter_blocked(&other, &ctx));
}

#[test]
fn a_full_slot_of_others_does_not_stop_a_claim() {
    let mut t = ruled(1, vec![conc(1, "a")]);
    t.expected_count = Some(i32::MAX);
    t.failures = -5;
    let mut tasks = vec![t];
    let mut slots = vec![RuleSlot { lock_key: "cap:b".to_string(), used: i32::MAX }];
    let round = run_claim_loop(&mut tasks, &mut slots, 0, 10, 10);
    assert_eq!(round.claimed.len(), 1);
    assert_eq!(used(&slots, CONC_A), 1);
    assert_eq!(used(&slots, "cap:b"), i32::MAX);
}

#[test]
fn a_scan_reports_its_pages_and_what_it_did_not_ask_again() {
    let mut tasks = vec![
        ruled(1, vec![conc(1, "a")]),
        ruled(2, vec![conc(1, "a")]),
        ruled(3, vec![conc(1, "a")]),
        ruled(4, vec![]),
        ruled(5, vec![]),
        ruled(6, vec![]),
    ];
    let mut slots: Vec<RuleSlot> = Vec::new();
    let round = run_claim_loop(&mut tasks, &mut slots, 0, 2, 10);
    assert_eq!(round.claimed.len(), 4);
    assert_eq!(round.blocked, 2);
    assert_eq!(round.cache_hits, 1);
    // The last page is empty.
    assert_eq!(round.pages, 4);
    let mut slots: Vec<RuleSlot> = Vec::new();
    let mut few = vec![ruled(1, vec![]), ruled(2, vec![]), ruled(3, vec![])];
    assert_eq!(run_claim_loop(&mut few, &mut slots, 0, 2, 10).pages, 2);
    let mut few = vec![ruled(1, vec![]), ruled(2, vec![]), ruled(3, vec![])];
    assert_eq!(run_claim_loop(&mut few, &mut slots, 2, 2, 10).pages, 1);
    assert_eq!(run_claim_loop(&mut Vec::new(), &mut slots, 0, 2, 10).pages, 1);
}

#[test]
fn a_slot_key_holds_what_the_rule_matches() {
    let metadata = "{\"region\":\"eu\",\"n\":7,\"list\":[1,{\"x\":null}]}";
    let m = matcher("import", &["region", "n"]);
    assert_eq!(
        concurrency_slot_key(&m, metadata),
        Ok("conc:6:import7:running1:n1:76:region4:\"eu\"".to_string())
    );
    assert_eq!(
        capacity_slot_key(&m, metadata),
        Ok("cap:6:import7:running1:n1:76:region4:\"eu\"".to_string())
    );
    assert_eq!(
        concurrency_slot_key(&matcher("k", &["list"]), metadata),
        Ok("conc:1:k7:running4:list14:[1,{\"x\":null}]".to_string())
    );
}

#[test]
fn the_order_of_a_rules_fields_does_not_matter() {
    let metadata = "{\"b\":1,\"a\":2}";
    let key = concurrency_slot_key(&matcher("k", &["a", "b"]), metadata);
    assert_eq!(concurrency_slot_key(&matcher("k", &["b", "a"]), metadata), key);
    assert_eq!(concurrency_slot_key(&matcher("k", &["b", "a", "b"]), metadata), key);
}

#[test]
fn a_slot_key_names_the_first_field_that_is_missing() {
    let m = matcher("k", &["z", "region"]);
    assert_eq!(concurrency_slot_key(&m, "{\"z\":1}"), Err("region".to_string()));
    assert_eq!(capacity_slot_key(&m, "{}"), Err("z".to_string()));
    assert_eq!(capacity_slot_key(&m, "null"), Err("z".to_string()));
    assert_eq!(capacity_slot_key(&m, "no json"), Err("z".to_string()));
}

#[test]
fn different_matches_have_different_slot_keys() {
    let keys = vec![
        concurrency_slot_key(&matcher("k", &[]), "{}"),
        capacity_slot_key(&matcher("k", &[]), "{}"),
        concurrency_slot_key(&matcher("k7:running", &[]), "{}"),
        concurrency_slot_key(&matcher("k", &["a"]), "{\"a\":1}"),
        concurrency_slot_key(&matcher("k", &["a"]), "{\"a\":11}"),
        concurrency_slot_key(&matcher("k", &["a"]), "{\"a\":\"1\"}"),
        concurrency_slot_key(&matcher("k", &["a", "b"]), "{\"a\":1,\"b\":1}"),
    ];
    for i in 0..keys.len() {
        for j in 0..i {
            assert_ne!(keys[i], keys[j]);
        }
    }
}

#[test]
fn new_rules_take_the_slots_of_each_tasks_metadata() {
    let mut tasks = vec![ruled(1, vec![]), ruled(2, vec![]), ruled(3, vec![])];
    tasks[0].metadata = "{\"region\":\"eu\"}".to_string();
    tasks[1].metadata = "{\"region\":\"us\"}".to_string();
    let rules = Rules(vec![per_region(1)]);
    assert_eq!(update_batch_rules(&mut tasks, 9, "k", &rules, Ok(())).unwrap(), 3);
    let mut slots: Vec<RuleSlot> = Vec::new();
    let round = run_claim_loop(&mut tasks, &mut slots, 0, 10, 10);
    assert_eq!(round.claimed.len(), 2);
    assert_eq!(
        tasks[0].claimed_slot_keys,
        Some(vec!["conc:1:a7:running6:region4:\"eu\"".to_string()])
    );
    assert_eq!(
        tasks[1].claimed_slot_keys,
        Some(vec!["conc:1:a7:running6:region4:\"us\"".to_string()])
    );
    // Without the field the rule cannot be met.
    assert_eq!(tasks[2].status, StatusKind::Pending);
    assert_eq!(slots.len(), 2);
}

#[test]
fn a_key_follows_the_metadata_that_a_task_has_when_it_is_claimed() {
    let mut tasks = vec![ruled(1, vec![per_region(1)])];
    tasks[0].metadata = "{\"region\":\"eu\"}".to_string();
    tasks[0].metadata = "{\"region\":\"us\"}".to_string();
    let mut slots: Vec<RuleSlot> = Vec::new();
    let t = tasks[0].clone();
    assert!(matches!(
        claim_task_with_rules(&mut tasks, &mut slots, &t, 10),
        ClaimResult::Claimed
    ));
    assert_eq!(used(&slots, "conc:1:a7:running6:region4:\"us\""), 1);
    // The release gives back the slot that was taken, whatever the metadata say by then.
    tasks[0].metadata = "{\"region\":\"eu\"}".to_string();
    release_slots_for_tasks(&mut tasks, &mut slots, &vec![1]);
    assert_eq!(used(&slots, "conc:1:a7:running6:region4:\"us\""), 0);
}
