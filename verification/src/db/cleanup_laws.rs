//! What retention keeps true.

use crate::db::cleanup::{
    among, archivable, archived, cleaned, ended_key, in_use, one_of, orphan, orphans,
    other_delivery, other_link, other_task, queued_for_batch, queued_for_task, to_archive,
    to_archive_row,
};
use crate::db::insert_laws::graph_ok;
use crate::db::slot_laws::{demand, slots_ok, usage};
use crate::db::task_crud::unique_slots;
use crate::db::task_lifecycle::is_task;
use crate::models::{Batch, Link, SlotRow, TaskRow};
use crate::order::{order, order_sorts, pick};
use crate::store::Tables;
use crate::tally::{lemma_count_filter, lemma_count_same, lemma_filter_has};
use crate::workers::propagation::{live, row_deps_ok, unique_ids, waits_for, waits_for_success};
use vstd::prelude::*;

verus! {

/// Only tasks that may be archived are.
pub proof fn lemma_archivable(s: Tables, cut: int, n: int, id: u128)
    requires
        n >= 0,
        to_archive(s, cut, n).contains(id),
    ensures
        exists|i: int|
            0 <= i < s.tasks.len() && #[trigger] s.tasks[i].id == id && archivable(s, cut)(
                s.tasks[i],
            ),
{
    let p = archivable(s, cut);
    let found = s.tasks.filter(p);
    let keys = found.map_values(|t: TaskRow| ended_key(t));
    let sorted = pick(found, order(keys));
    let ids = sorted.map_values(|t: TaskRow| t.id);
    let k = choose|k: int| 0 <= k < to_archive(s, cut, n).len() && to_archive(s, cut, n)[k] == id;
    order_sorts(keys);
    assert(ids[k] == id);
    let t = found[order(keys)[k]];
    assert(t.id == id);
    assert(found.contains(t));
    lemma_filter_has(s.tasks, p, t);
    let i = choose|i: int| 0 <= i < s.tasks.len() && s.tasks[i] == t;
    assert(s.tasks[i].id == id);
}

proof fn lemma_keeps_all<A>(s: Seq<A>, p: spec_fn(A) -> bool)
    requires
        forall|i: int| 0 <= i < s.len() ==> p(#[trigger] s[i]),
    ensures
        s.filter(p) == s,
    decreases s.len(),
{
    reveal(Seq::filter);
    if s.len() > 0 {
        assert forall|i: int| 0 <= i < s.drop_last().len() implies p(
            #[trigger] s.drop_last()[i],
        ) by {
            assert(p(s[i]));
        }
        lemma_keeps_all(s.drop_last(), p);
        assert(p(s[s.len() - 1]));
        assert(s.drop_last().push(s.last()) =~= s);
    }
}

/// A cleanup never drops a queued delivery: every signal still goes out.
pub proof fn cleanup_keeps_queue(s: Tables, cut: int, n: int, now: int)
    requires
        n >= 0,
    ensures
        cleaned(s, cut, n, now).outbox == s.outbox,
{
    let ids = to_archive(s, cut, n);
    if ids.len() > 0 {
        let t = archived(s, ids, now);
        assert forall|i: int| 0 <= i < s.outbox.len() implies other_delivery(ids, true)(
            #[trigger] s.outbox[i],
        ) by {
            if one_of(s.outbox[i].task_id, ids) {
                let id = s.outbox[i].task_id->0;
                lemma_archivable(s, cut, n, id);
                assert(s.outbox[i].task_id == Some(id));
                assert(queued_for_task(s.outbox, id));
            }
        }
        lemma_keeps_all(s.outbox, other_delivery(ids, true));
        let empty = orphans(t, n);
        assert forall|i: int| 0 <= i < t.outbox.len() implies other_delivery(empty, false)(
            #[trigger] t.outbox[i],
        ) by {
            if one_of(t.outbox[i].batch_id, empty) {
                let b = t.outbox[i].batch_id->0;
                let f = |b: Batch| b.id;
                let sel = t.batches.filter(orphan(t));
                let k = choose|k: int| 0 <= k < empty.len() && empty[k] == b;
                assert(sel.map_values(f)[k] == b);
                assert(sel.contains(sel[k]));
                lemma_filter_has(t.batches, orphan(t), sel[k]);
                assert(t.outbox[i].batch_id == Some(b));
                assert(queued_for_batch(t.outbox, b));
            }
        }
        lemma_keeps_all(t.outbox, other_delivery(empty, false));
    }
}

proof fn lemma_unique_filtered(rows: Seq<TaskRow>, p: spec_fn(TaskRow) -> bool)
    requires
        unique_ids(rows),
    ensures
        unique_ids(rows.filter(p)),
    decreases rows.len(),
{
    reveal(Seq::filter);
    if rows.len() > 0 {
        let init = rows.drop_last();
        let n = rows.len() - 1;
        assert forall|i: int, j: int|
            0 <= i < init.len() && 0 <= j < init.len() && #[trigger] init[i].id
                == #[trigger] init[j].id implies i == j by {
            assert(rows[i].id == rows[j].id);
        }
        lemma_unique_filtered(init, p);
        let sub = init.filter(p);
        let all = rows.filter(p);
        assert forall|i: int, j: int|
            0 <= i < all.len() && 0 <= j < all.len() && #[trigger] all[i].id
                == #[trigger] all[j].id implies i == j by {
            if p(rows[n]) {
                assert(all =~= sub.push(rows[n]));
                if i < sub.len() && j < sub.len() {
                    assert(sub[i].id == sub[j].id);
                } else if i < sub.len() {
                    lemma_filter_has(init, p, sub[i]);
                    assert(sub.contains(sub[i]));
                    let w = choose|w: int| 0 <= w < init.len() && init[w] == sub[i];
                    assert(rows[w].id == rows[n].id);
                } else if j < sub.len() {
                    lemma_filter_has(init, p, sub[j]);
                    assert(sub.contains(sub[j]));
                    let w = choose|w: int| 0 <= w < init.len() && init[w] == sub[j];
                    assert(rows[w].id == rows[n].id);
                }
            } else {
                assert(sub[i].id == sub[j].id);
            }
        }
    }
}

/// A cleanup keeps the graph of the tasks that stay: every link joins two of them
/// and every counter agrees with the links.
pub proof fn cleanup_keeps_graph(s: Tables, cut: int, n: int, now: int)
    requires
        n >= 0,
        graph_ok(s),
    ensures
        graph_ok(cleaned(s, cut, n, now)),
{
    let ids = to_archive(s, cut, n);
    if ids.len() > 0 {
        let t = cleaned(s, cut, n, now);
        let none = Seq::<u128>::empty();
        let stay = other_task(ids);
        let joined = other_link(ids);
        lemma_unique_filtered(s.tasks, stay);
        assert forall|x: u128| #[trigger] is_task(t.tasks, x) <==> is_task(s.tasks, x)
            && !ids.contains(x) by {
            if is_task(t.tasks, x) {
                let i = choose|i: int| 0 <= i < t.tasks.len() && #[trigger] t.tasks[i].id == x;
                assert(t.tasks.contains(t.tasks[i]));
                lemma_filter_has(s.tasks, stay, t.tasks[i]);
                let j = choose|j: int| 0 <= j < s.tasks.len() && s.tasks[j] == t.tasks[i];
                assert(s.tasks[j].id == x);
            }
            if is_task(s.tasks, x) && !ids.contains(x) {
                let j = choose|j: int| 0 <= j < s.tasks.len() && #[trigger] s.tasks[j].id == x;
                assert(s.tasks.contains(s.tasks[j]));
                lemma_filter_has(s.tasks, stay, s.tasks[j]);
                let i = choose|i: int| 0 <= i < t.tasks.len() && t.tasks[i] == s.tasks[j];
                assert(t.tasks[i].id == x);
            }
        }
        assert forall|x: u128| #[trigger] live(s.tasks, x) implies !ids.contains(x) by {
            if ids.contains(x) {
                lemma_archivable(s, cut, n, x);
                let i = choose|i: int|
                    0 <= i < s.tasks.len() && #[trigger] s.tasks[i].id == x && archivable(s, cut)(
                        s.tasks[i],
                    );
                let j = choose|j: int|
                    0 <= j < s.tasks.len() && #[trigger] s.tasks[j].id == x
                        && !s.tasks[j].status.terminal();
                assert(s.tasks[i].id == s.tasks[j].id);
            }
        }
        assert forall|x: u128| #[trigger] live(t.tasks, x) <==> live(s.tasks, x) by {
            if live(t.tasks, x) {
                let i = choose|i: int|
                    0 <= i < t.tasks.len() && #[trigger] t.tasks[i].id == x
                        && !t.tasks[i].status.terminal();
                assert(t.tasks.contains(t.tasks[i]));
                lemma_filter_has(s.tasks, stay, t.tasks[i]);
                let j = choose|j: int| 0 <= j < s.tasks.len() && s.tasks[j] == t.tasks[i];
                assert(s.tasks[j].id == x);
            }
            if live(s.tasks, x) {
                let j = choose|j: int|
                    0 <= j < s.tasks.len() && #[trigger] s.tasks[j].id == x
                        && !s.tasks[j].status.terminal();
                assert(s.tasks.contains(s.tasks[j]));
                lemma_filter_has(s.tasks, stay, s.tasks[j]);
                let i = choose|i: int| 0 <= i < t.tasks.len() && t.tasks[i] == s.tasks[j];
                assert(t.tasks[i].id == x);
            }
        }
        assert forall|k: int| 0 <= k < t.links.len() implies is_task(
            t.tasks,
            (#[trigger] t.links[k]).parent_id,
        ) && is_task(t.tasks, t.links[k].child_id) by {
            assert(t.links.contains(t.links[k]));
            lemma_filter_has(s.links, joined, t.links[k]);
            let j = choose|j: int| 0 <= j < s.links.len() && s.links[j] == t.links[k];
            assert(is_task(s.tasks, s.links[j].parent_id));
        }
        assert forall|i: int| 0 <= i < t.tasks.len() implies row_deps_ok(
            t.tasks,
            t.links,
            none,
            #[trigger] t.tasks[i],
        ) by {
            assert(t.tasks.contains(t.tasks[i]));
            lemma_filter_has(s.tasks, stay, t.tasks[i]);
            let j = choose|j: int| 0 <= j < s.tasks.len() && s.tasks[j] == t.tasks[i];
            assert(row_deps_ok(s.tasks, s.links, none, s.tasks[j]));
            let c = t.tasks[i].id;
            let w0 = waits_for(s.tasks, none, c);
            let w1 = waits_for(t.tasks, none, c);
            let s0 = waits_for_success(s.tasks, none, c);
            let s1 = waits_for_success(t.tasks, none, c);
            lemma_count_filter(s.links, joined, w1);
            lemma_count_filter(s.links, joined, s1);
            lemma_count_same(s.links, |l: Link| joined(l) && w1(l), s.links, w0);
            lemma_count_same(s.links, |l: Link| joined(l) && s1(l), s.links, s0);
        }
    }
}

/// A cleanup loses no task: each one stays as it is or is found in the archive as
/// it was, and tasks that have not ended stay.
pub proof fn cleanup_loses_no_task(s: Tables, cut: int, n: int, now: int, i: int)
    requires
        n >= 0,
        unique_ids(s.tasks),
        0 <= i < s.tasks.len(),
    ensures
        ({
            let t = cleaned(s, cut, n, now);
            let row = s.tasks[i];
            ||| t.tasks.contains(row)
            ||| row.status.terminal() && t.archive.contains(to_archive_row(now)(row))
        }),
{
    let ids = to_archive(s, cut, n);
    let row = s.tasks[i];
    assert(s.tasks.contains(row));
    if ids.len() > 0 {
        let t = cleaned(s, cut, n, now);
        if ids.contains(row.id) {
            lemma_archivable(s, cut, n, row.id);
            let j = choose|j: int|
                0 <= j < s.tasks.len() && #[trigger] s.tasks[j].id == row.id && archivable(s, cut)(
                    s.tasks[j],
                );
            assert(s.tasks[i].id == s.tasks[j].id);
            lemma_filter_has(s.tasks, among(ids), row);
            let moved = s.tasks.filter(among(ids));
            let k = choose|k: int| 0 <= k < moved.len() && moved[k] == row;
            assert(t.archive[s.archive.len() + k] == to_archive_row(now)(row));
        } else {
            lemma_filter_has(s.tasks, other_task(ids), row);
        }
    }
}

proof fn lemma_usage_in_use(slots: Seq<SlotRow>, key: Seq<char>)
    ensures
        usage(slots.filter(|s: SlotRow| in_use(s)), key) == usage(slots, key),
    decreases slots.len(),
{
    reveal(Seq::filter);
    if slots.len() > 0 {
        lemma_usage_in_use(slots.drop_last(), key);
        let sub = slots.drop_last().filter(|s: SlotRow| in_use(s));
        if in_use(slots.last()) {
            assert(sub.push(slots.last()).drop_last() =~= sub);
        }
    }
}

proof fn lemma_unique_slots_filtered(slots: Seq<SlotRow>, p: spec_fn(SlotRow) -> bool)
    requires
        unique_slots(slots),
    ensures
        unique_slots(slots.filter(p)),
    decreases slots.len(),
{
    reveal(Seq::filter);
    if slots.len() > 0 {
        let init = slots.drop_last();
        let n = slots.len() - 1;
        assert forall|i: int, j: int|
            #![trigger init[i], init[j]]
            0 <= i < init.len() && 0 <= j < init.len() && init[i].key == init[j].key implies i
            == j by {
            assert(slots[i].key == slots[j].key);
        }
        lemma_unique_slots_filtered(init, p);
        let sub = init.filter(p);
        let all = slots.filter(p);
        assert forall|i: int, j: int|
            #![trigger all[i], all[j]]
            0 <= i < all.len() && 0 <= j < all.len() && all[i].key == all[j].key implies i == j by {
            if p(slots[n]) {
                assert(all =~= sub.push(slots[n]));
                if i < sub.len() && j < sub.len() {
                    assert(sub[i].key == sub[j].key);
                } else if i < sub.len() {
                    lemma_filter_has(init, p, sub[i]);
                    assert(sub.contains(sub[i]));
                    let w = choose|w: int| 0 <= w < init.len() && init[w] == sub[i];
                    assert(slots[w].key == slots[n].key);
                } else if j < sub.len() {
                    lemma_filter_has(init, p, sub[j]);
                    assert(sub.contains(sub[j]));
                    let w = choose|w: int| 0 <= w < init.len() && init[w] == sub[j];
                    assert(slots[w].key == slots[n].key);
                }
            } else {
                assert(sub[i].key == sub[j].key);
            }
        }
    }
}

/// Deleting the slots that are not in use keeps every slot's count.
pub proof fn gc_keeps_slots(tasks: Seq<TaskRow>, slots: Seq<SlotRow>)
    requires
        slots_ok(tasks, slots),
    ensures
        slots_ok(tasks, slots.filter(|s: SlotRow| in_use(s))),
{
    let rest = slots.filter(|s: SlotRow| in_use(s));
    lemma_unique_slots_filtered(slots, |s: SlotRow| in_use(s));
    assert forall|key: Seq<char>| #[trigger] usage(rest, key) == demand(tasks, key) by {
        lemma_usage_in_use(slots, key);
        assert(usage(slots, key) == demand(tasks, key));
    }
}

} // verus!
