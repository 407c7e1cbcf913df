use arcrun::workers::batch_updater::{
    apply_event, drain_updates, new_counts, prune, requeue, UpdateEvent,
};
use arcrun::workers::counter_flush::recover_per_row;

fn fresh() -> u128 {
    uuid::Uuid::new_v4().as_u128()
}

#[test]
fn apply_event_accumulates_into_single_entry() {
    let mut data = new_counts();
    let id = fresh();
    apply_event(&mut data, &UpdateEvent { success: 3, failures: 1, task_id: id });
    apply_event(&mut data, &UpdateEvent { success: 2, failures: 4, task_id: id });
    let entry = *data.get(&id).unwrap();
    assert_eq!(entry.0, 5);
    assert_eq!(entry.1, 5);
}

#[test]
fn apply_event_accumulator_does_not_wrap_at_i32_max() {
    let mut data = new_counts();
    let id = fresh();
    for _ in 0..2 {
        apply_event(&mut data, &UpdateEvent { success: i32::MAX, failures: 0, task_id: id });
    }
    assert_eq!(data.get(&id).unwrap().0, i64::from(i32::MAX) * 2);
}

#[test]
fn drain_updates_swaps_and_filters_zero() {
    let mut data = new_counts();
    let a = fresh();
    let b = fresh();
    apply_event(&mut data, &UpdateEvent { success: 7, failures: 0, task_id: a });
    apply_event(&mut data, &UpdateEvent { success: 0, failures: 0, task_id: b });

    let mut updates = drain_updates(&mut data);
    updates.sort();
    assert_eq!(updates, vec![(a, 7, 0)]);

    assert_eq!(data.get(&a).unwrap().0, 0);
}

#[test]
fn requeue_readds_counts_only_for_given_rows() {
    let mut data = new_counts();
    let a = fresh();
    let b = fresh();
    apply_event(&mut data, &UpdateEvent { success: 1, failures: 1, task_id: a });

    requeue(&mut data, &vec![(a, 4, 0), (b, 0, 9)]);

    assert_eq!(data.get(&a).unwrap().0, 5);
    assert_eq!(data.get(&a).unwrap().1, 1);
    assert_eq!(data.get(&b).unwrap().1, 9);
}

#[test]
fn requeue_undoes_a_drain() {
    let mut data = new_counts();
    apply_event(&mut data, &UpdateEvent { success: 3, failures: 2, task_id: 1 });
    apply_event(&mut data, &UpdateEvent { success: 0, failures: 4, task_id: 2 });
    let updates = drain_updates(&mut data);
    assert_eq!(updates.len(), 2);
    requeue(&mut data, &updates);
    assert_eq!(*data.get(&1).unwrap(), (3, 2));
    assert_eq!(*data.get(&2).unwrap(), (0, 4));
}

#[test]
fn prune_forgets_tasks_without_counts() {
    let mut data = new_counts();
    apply_event(&mut data, &UpdateEvent { success: 1, failures: 0, task_id: 1 });
    apply_event(&mut data, &UpdateEvent { success: 0, failures: 0, task_id: 2 });
    assert_eq!(prune(&mut data), 1);
    assert!(data.get(&1).is_some());
    assert!(data.get(&2).is_none());
}

#[test]
fn rows_that_could_not_be_applied_are_kept() {
    let mut data = new_counts();
    let failed = recover_per_row(&mut data, &vec![(1, 5, 0), (2, 0, 6)], &vec![true, false]);
    assert_eq!(failed, 1);
    assert!(data.get(&1).is_none());
    assert_eq!(*data.get(&2).unwrap(), (0, 6));
}
