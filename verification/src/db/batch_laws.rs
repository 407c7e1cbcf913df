//! What creating a batch and retention leave consistent.

use crate::db::cleanup::{
    archived, cleaned, orphans, other_batch, other_link, other_record, other_task, to_archive,
};
use crate::db::cleanup_laws::{
    cleanup_keeps_graph, cleanup_keeps_queue, gc_keeps_slots, lemma_archivable,
};
use crate::db::insert_laws::{graph_ok, insert_keeps_graph, lemma_inserts, mapping_live};
use crate::db::slot_laws::{demand, holders_active, slots_ok, usage};
use crate::db::task_crud::charges_ok;
use crate::db::task_insert::{
    deps_of, inserted, known, links_of, mapped, new_row, with_task, written, Inserted,
};
use crate::db::task_lifecycle::is_task;
use crate::db::webhook_execution::{registered_batch, with_remaining};
use crate::db::webhook_outbox::keys_disjoint;
use crate::dtos::NewTaskDto;
use crate::config::RetentionConfig;
use crate::handlers::create::{closed, has_batch, opened};
use crate::models::{LedgerRow, Link, NewActionDto, OutboxRow, TaskRow};
use crate::store::Tables;
use crate::tally::{
    count, lemma_count_filter, lemma_count_same, lemma_count_zero,
};
use crate::workers::finish_laws::{consistent, lemma_signals_disjoint, live_in};
use crate::workers::propagation::{live, unique_ids, unique_links};
use crate::workers::retention::{after_retention, retained};
use vstd::prelude::*;

verus! {

// ---------------------------------------------------------------------------
// Retention
// ---------------------------------------------------------------------------

/// Where the elements of a selection stand: after as many others as they stand after
/// in the selection.
proof fn lemma_filter_order<A>(s: Seq<A>, p: spec_fn(A) -> bool, k: int) -> (i: int)
    requires
        0 <= k < s.filter(p).len(),
    ensures
        0 <= i < s.len(),
        s[i] == s.filter(p)[k],
        p(s[i]),
        s.take(i).filter(p).len() == k,
    decreases s.len(),
{
    reveal(Seq::filter);
    let init = s.drop_last();
    let n = s.len() - 1;
    if k < init.filter(p).len() {
        let i = lemma_filter_order(init, p, k);
        assert(init.take(i) =~= s.take(i));
        i
    } else {
        assert(s.take(n) =~= init);
        n
    }
}

/// Leaving out tasks that hold nothing leaves the demand as it is.
proof fn lemma_demand_filtered(tasks: Seq<TaskRow>, p: spec_fn(TaskRow) -> bool, key: Seq<char>)
    requires
        forall|i: int|
            0 <= i < tasks.len() && !p(#[trigger] tasks[i]) ==> tasks[i].slot_keys is None,
    ensures
        demand(tasks.filter(p), key) == demand(tasks, key),
    decreases tasks.len(),
{
    reveal(Seq::filter);
    if tasks.len() > 0 {
        let init = tasks.drop_last();
        let n = tasks.len() - 1;
        assert forall|i: int| 0 <= i < init.len() && !p(
            #[trigger] init[i],
        ) implies init[i].slot_keys is None by {
            assert(tasks[i] == init[i]);
        }
        lemma_demand_filtered(init, p, key);
        if p(tasks[n]) {
            assert(init.filter(p).push(tasks[n]).drop_last() =~= init.filter(p));
        }
    }
}

/// An archived task has ended.
proof fn lemma_archived_ended(s: Tables, cut: int, n: int, i: int)
    requires
        n >= 0,
        unique_ids(s.tasks),
        0 <= i < s.tasks.len(),
        to_archive(s, cut, n).contains(s.tasks[i].id),
    ensures
        s.tasks[i].status.terminal(),
{
    lemma_archivable(s, cut, n, s.tasks[i].id);
    let j = choose|j: int|
        0 <= j < s.tasks.len() && #[trigger] s.tasks[j].id == s.tasks[i].id
            && crate::db::cleanup::archivable(s, cut)(s.tasks[j]);
    assert(s.tasks[j].id == s.tasks[i].id);
}

/// A selection of the ledger keeps queue and ledger disjoint.
proof fn lemma_ledger_filtered(
    outbox: Seq<OutboxRow>,
    ledger: Seq<LedgerRow>,
    p: spec_fn(LedgerRow) -> bool,
)
    requires
        keys_disjoint(outbox, ledger),
    ensures
        keys_disjoint(outbox, ledger.filter(p)),
{
    let sub = ledger.filter(p);
    assert forall|i: int, j: int|
        #![trigger sub[i], sub[j]]
        0 <= i < sub.len() && 0 <= j < sub.len() && sub[i].key == sub[j].key implies i == j by {
        let a = lemma_filter_order(ledger, p, i);
        let b = lemma_filter_order(ledger, p, j);
        assert(ledger[a].key == ledger[b].key);
    }
    assert forall|i: int, j: int|
        #![trigger outbox[i], sub[j]]
        0 <= i < outbox.len() && 0 <= j < sub.len() implies outbox[i].key != sub[j].key by {
        let b = lemma_filter_order(ledger, p, j);
        assert(outbox[i].key != ledger[b].key);
    }
}

/// A selection of links has no link twice.
proof fn lemma_links_filtered(links: Seq<Link>, p: spec_fn(Link) -> bool)
    requires
        unique_links(links),
    ensures
        unique_links(links.filter(p)),
{
    let sub = links.filter(p);
    assert forall|i: int, j: int|
        #![trigger sub[i], sub[j]]
        0 <= i < sub.len() && 0 <= j < sub.len() && sub[i].parent_id == sub[j].parent_id
            && sub[i].child_id == sub[j].child_id implies i == j by {
        let a = lemma_filter_order(links, p, i);
        let b = lemma_filter_order(links, p, j);
        assert(links[a].parent_id == links[b].parent_id);
    }
}

/// A cleanup keeps the tables consistent.
pub proof fn cleanup_keeps_consistent(s: Tables, cut: int, n: int, now: int)
    requires
        n >= 0,
        consistent(s),
    ensures
        consistent(cleaned(s, cut, n, now)),
{
    let ids = to_archive(s, cut, n);
    if ids.len() > 0 {
        let t = cleaned(s, cut, n, now);
        let mid = archived(s, ids, now);
        let empty = orphans(mid, n);
        let stay = other_task(ids);
        cleanup_keeps_graph(s, cut, n, now);
        cleanup_keeps_queue(s, cut, n, now);
        lemma_links_filtered(s.links, other_link(ids));
        lemma_ledger_filtered(s.outbox, s.ledger, other_record(ids, true));
        lemma_ledger_filtered(s.outbox, mid.ledger, other_record(empty, false));
        assert(t.tasks == s.tasks.filter(stay));
        assert forall|i: int| 0 <= i < s.tasks.len() && !stay(
            #[trigger] s.tasks[i],
        ) implies s.tasks[i].slot_keys is None && s.tasks[i].status.terminal() by {
            lemma_archived_ended(s, cut, n, i);
        }
        assert forall|key: Seq<char>| #[trigger] usage(t.slots, key) == demand(t.tasks, key) by {
            lemma_demand_filtered(s.tasks, stay, key);
            assert(usage(s.slots, key) == demand(s.tasks, key));
        }
        assert forall|k: int| 0 <= k < t.tasks.len() implies s.tasks.contains(
            #[trigger] t.tasks[k],
        ) by {
            let i = lemma_filter_order(s.tasks, stay, k);
            assert(s.tasks[i] == t.tasks[k]);
        }
        assert(charges_ok(t.tasks)) by {
            assert forall|k: int|
                0 <= k < t.tasks.len() && (
                #[trigger] t.tasks[k]).capacity_charge is Some implies t.tasks[k].capacity_charge->0
                >= 0 by {
                let i = lemma_filter_order(s.tasks, stay, k);
                assert(s.tasks[i].capacity_charge is Some);
            }
        }
        assert(holders_active(t.tasks)) by {
            assert forall|k: int|
                0 <= k < t.tasks.len() && (
                #[trigger] t.tasks[k]).slot_keys is Some implies t.tasks[k].status.active() by {
                let i = lemma_filter_order(s.tasks, stay, k);
                assert(s.tasks[i].slot_keys is Some);
            }
        }
        assert forall|k: int| 0 <= k < t.batches.len() implies (#[trigger] t.batches[k]).remaining
            == count(t.tasks, live_in(t.batches[k].id)) by {
            let j = lemma_filter_order(mid.batches, other_batch(empty), k);
            let b = s.batches[j].id;
            assert(s.batches[j].remaining == count(s.tasks, live_in(b)));
            lemma_count_filter(s.tasks, stay, live_in(b));
            lemma_count_same(
                s.tasks,
                |r: TaskRow| stay(r) && live_in(b)(r),
                s.tasks,
                live_in(b),
            );
        }
    }
}

/// A whole iteration of the retention loop keeps the tables consistent.
pub proof fn retention_keeps_consistent(s: Tables, cfg: RetentionConfig, now: int)
    requires
        cfg.batch_size >= 0,
        consistent(s),
    ensures
        consistent(after_retention(s, cfg, now)),
{
    let t = retained(s, cfg, now);
    if cfg.enabled {
        cleanup_keeps_consistent(
            s,
            crate::db::cleanup::cutoff(now, cfg.retention_days as int),
            cfg.batch_size as int,
            now,
        );
    }
    gc_keeps_slots(t.tasks, t.slots);
}

// ---------------------------------------------------------------------------
// Creation
// ---------------------------------------------------------------------------

/// The local ids stand for different tasks.
pub open spec fn mapping_distinct(m: Seq<(Seq<char>, u128)>) -> bool {
    forall|i: int, j: int|
        #![trigger m[i], m[j]]
        0 <= i < m.len() && 0 <= j < m.len() && m[i].1 == m[j].1 ==> i == j
}

/// No task names a dependency twice.
pub open spec fn deps_distinct(dto: NewTaskDto) -> bool {
    forall|i: int, j: int|
        #![trigger deps_of(dto)[i], deps_of(dto)[j]]
        0 <= i < deps_of(dto).len() && 0 <= j < deps_of(dto).len() && deps_of(dto)[i].id@ == deps_of(
            dto,
        )[j].id@ ==> i == j
}

/// The entry that gives a local id its task.
proof fn lemma_mapped_at(m: Seq<(Seq<char>, u128)>, id: Seq<char>) -> (k: int)
    requires
        mapped(m, id) is Some,
    ensures
        0 <= k < m.len(),
        m[k] == (id, mapped(m, id)->0),
    decreases m.len(),
{
    if m.last().0 == id {
        m.len() - 1
    } else {
        lemma_mapped_at(m.drop_last(), id)
    }
}

/// Creating a task keeps links unique and slots counted, and adds it to its batch.
proof fn lemma_one_created(
    t: Tables,
    m: Seq<(Seq<char>, u128)>,
    dto: NewTaskDto,
    id: u128,
    batch_id: Option<u128>,
    now: int,
)
    requires
        graph_ok(t),
        unique_links(t.links),
        charges_ok(t.tasks),
        holders_active(t.tasks),
        slots_ok(t.tasks, t.slots),
        mapping_distinct(m),
        deps_distinct(dto),
        !is_task(t.tasks, id),
    ensures
        ({
            let u = with_task(t, dto, id, batch_id, m, now);
            &&& unique_links(u.links)
            &&& charges_ok(u.tasks)
            &&& holders_active(u.tasks)
            &&& slots_ok(u.tasks, u.slots)
            &&& forall|b: u128| #[trigger]
                count(u.tasks, live_in(b)) == count(t.tasks, live_in(b)) + if batch_id == Some(b) {
                    1nat
                } else {
                    0nat
                }
        }),
{
    let u = with_task(t, dto, id, batch_id, m, now);
    let row = new_row(dto, id, batch_id, m, now);
    let deps = deps_of(dto);
    let sel = deps.filter(known(m));
    let new = links_of(deps, m, id);
    let n = t.links.len() as int;
    assert(u.tasks.drop_last() =~= t.tasks);
    assert(u.tasks.last() == row);
    assert forall|i: int, j: int|
        #![trigger u.links[i], u.links[j]]
        0 <= i < u.links.len() && 0 <= j < u.links.len() && u.links[i].parent_id
            == u.links[j].parent_id && u.links[i].child_id == u.links[j].child_id implies i
        == j by {
        if i < n && j < n {
            assert(t.links[i].parent_id == t.links[j].parent_id);
        } else if i < n {
            assert(is_task(t.tasks, t.links[i].child_id));
        } else if j < n {
            assert(is_task(t.tasks, t.links[j].child_id));
        } else {
            let x = lemma_filter_order(deps, known(m), i - n);
            let y = lemma_filter_order(deps, known(m), j - n);
            assert(new[i - n].parent_id == new[j - n].parent_id);
            let kx = lemma_mapped_at(m, deps[x].id@);
            let ky = lemma_mapped_at(m, deps[y].id@);
            assert(m[kx].1 == m[ky].1);
            assert(deps_of(dto)[x].id@ == deps_of(dto)[y].id@);
        }
    }
    assert forall|key: Seq<char>| #[trigger] usage(u.slots, key) == demand(u.tasks, key) by {
        assert(usage(t.slots, key) == demand(t.tasks, key));
    }
    assert forall|i: int|
        0 <= i < u.tasks.len() && (
        #[trigger] u.tasks[i]).capacity_charge is Some implies u.tasks[i].capacity_charge->0
        >= 0 by {
        assert(t.tasks[i].capacity_charge is Some);
    }
    assert forall|i: int|
        0 <= i < u.tasks.len() && (
        #[trigger] u.tasks[i]).slot_keys is Some implies u.tasks[i].status.active() by {
        assert(t.tasks[i].slot_keys is Some);
    }
}

/// Creating tasks one after the other.
proof fn lemma_all_created(
    start: Inserted,
    dtos: Seq<NewTaskDto>,
    ids: Seq<u128>,
    verdicts: Seq<bool>,
    batch: u128,
    now: int,
)
    requires
        graph_ok(start.tables),
        mapping_live(start.mapping, start.tables.tasks),
        mapping_distinct(start.mapping),
        unique_links(start.tables.links),
        charges_ok(start.tables.tasks),
        holders_active(start.tables.tasks),
        slots_ok(start.tables.tasks, start.tables.slots),
        forall|k: int| 0 <= k < dtos.len() ==> deps_distinct(#[trigger] dtos[k]),
        ids.len() >= dtos.len(),
        ids.no_duplicates(),
        forall|k: int| 0 <= k < ids.len() ==> !is_task(start.tables.tasks, #[trigger] ids[k]),
    ensures
        ({
            let end = inserted(start, dtos, ids, verdicts, Some(batch), now);
            &&& end.tables == Tables {
                tasks: end.tables.tasks,
                links: end.tables.links,
                actions: end.tables.actions,
                ..start.tables
            }
            &&& mapping_distinct(end.mapping)
            &&& unique_links(end.tables.links)
            &&& charges_ok(end.tables.tasks)
            &&& holders_active(end.tables.tasks)
            &&& slots_ok(end.tables.tasks, end.tables.slots)
            &&& start.results.len() <= end.results.len()
            &&& forall|b: u128| #[trigger]
                count(end.tables.tasks, live_in(b)) == count(start.tables.tasks, live_in(b))
                    + if b == batch {
                    (end.results.len() - start.results.len()) as nat
                } else {
                    0nat
                }
        }),
    decreases dtos.len(),
{
    if dtos.len() > 0 {
        let n = dtos.len() - 1;
        let s = inserted(start, dtos.drop_last(), ids, verdicts, Some(batch), now);
        let end = inserted(start, dtos, ids, verdicts, Some(batch), now);
        assert forall|k: int| 0 <= k < dtos.drop_last().len() implies deps_distinct(
            #[trigger] dtos.drop_last()[k],
        ) by {
            assert(dtos[k] == dtos.drop_last()[k]);
        }
        lemma_all_created(start, dtos.drop_last(), ids, verdicts, batch, now);
        lemma_inserts(start, dtos.drop_last(), ids, verdicts, Some(batch), now);
        if written(dtos[n], verdicts[n]) {
            assert(!is_task(s.tables.tasks, ids[n]));
            assert(deps_distinct(dtos[n]));
            lemma_one_created(s.tables, s.mapping, dtos[n], ids[n], Some(batch), now);
            assert forall|i: int, j: int|
                #![trigger end.mapping[i], end.mapping[j]]
                0 <= i < end.mapping.len() && 0 <= j < end.mapping.len() && end.mapping[i].1
                    == end.mapping[j].1 implies i == j by {
                let l = s.mapping.len();
                if i < l && j < l {
                    assert(s.mapping[i].1 == s.mapping[j].1);
                } else if i < l {
                    lemma_live_is_task(s.mapping, s.tables.tasks, i);
                } else if j < l {
                    lemma_live_is_task(s.mapping, s.tables.tasks, j);
                }
            }
        }
    }
}

proof fn lemma_live_is_task(m: Seq<(Seq<char>, u128)>, tasks: Seq<TaskRow>, i: int)
    requires
        mapping_live(m, tasks),
        0 <= i < m.len(),
    ensures
        is_task(tasks, m[i].1),
{
    assert(live(tasks, m[i].1));
    let k = choose|k: int|
        0 <= k < tasks.len() && #[trigger] tasks[k].id == m[i].1 && !tasks[k].status.terminal();
    assert(tasks[k].id == m[i].1);
}

/// Creating a batch of tasks keeps the tables consistent: the batch waits for
/// exactly the tasks that were created. The batch and the ids are new ones.
pub proof fn creation_keeps_consistent(
    s: Tables,
    t: Tables,
    on_batch_complete: Option<Vec<NewActionDto>>,
    scope: Option<String>,
    metadata: Option<String>,
    dtos: Seq<NewTaskDto>,
    ids: Seq<u128>,
    verdicts: Seq<bool>,
    batch: u128,
    now: int,
)
    requires
        consistent(s),
        opened(s, batch, on_batch_complete, scope, metadata, now, t),
        forall|i: int| 0 <= i < s.tasks.len() ==> (#[trigger] s.tasks[i]).batch_id != Some(batch),
        forall|k: int| 0 <= k < dtos.len() ==> deps_distinct(#[trigger] dtos[k]),
        dtos.len() <= i32::MAX,
        ids.len() == dtos.len(),
        ids.no_duplicates(),
        forall|k: int| 0 <= k < ids.len() ==> !is_task(s.tasks, #[trigger] ids[k]),
    ensures
        ({
            let start = Inserted { tables: t, mapping: Seq::empty(), results: Seq::empty() };
            let end = inserted(start, dtos, ids, verdicts, Some(batch), now);
            consistent(closed(end.tables, batch, end.results.len() as i32, now))
        }),
{
    let start = Inserted { tables: t, mapping: Seq::empty(), results: Seq::empty() };
    let end = inserted(start, dtos, ids, verdicts, Some(batch), now);
    assert(graph_ok(t));
    lemma_all_created(start, dtos, ids, verdicts, batch, now);
    lemma_results_fit(start, dtos, ids, verdicts, batch, now);
    insert_keeps_graph(start, dtos, ids, verdicts, Some(batch), now);
    let f = closed(end.tables, batch, end.results.len() as i32, now);
    lemma_signals_disjoint(t.outbox, t.ledger, t.batches, registered_batch(batch), now);
    lemma_count_zero(s.tasks, live_in(batch));
    assert(count(s.tasks, live_in(batch)) == 0);
    assert forall|k: int| 0 <= k < f.batches.len() implies (#[trigger] f.batches[k]).remaining
        == count(f.tasks, live_in(f.batches[k].id)) by {
        assert(f.batches[k] == with_remaining(batch, end.results.len() as i32)(t.batches[k]));
        let b = t.batches[k].id;
        if b != batch {
            assert(k < s.batches.len());
            assert(s.batches[k] == t.batches[k]) by {
                if has_batch(on_batch_complete, scope, metadata) {
                    assert(t.batches.drop_last()[k] == t.batches[k]);
                }
            }
            assert(s.batches[k].remaining == count(s.tasks, live_in(b)));
        }
        assert(count(end.tables.tasks, live_in(b)) == count(t.tasks, live_in(b)) + if b == batch {
            end.results.len()
        } else {
            0nat
        });
    }
}

proof fn lemma_results_fit(
    start: Inserted,
    dtos: Seq<NewTaskDto>,
    ids: Seq<u128>,
    verdicts: Seq<bool>,
    batch: u128,
    now: int,
)
    ensures
        inserted(start, dtos, ids, verdicts, Some(batch), now).results.len() <= start.results.len()
            + dtos.len(),
    decreases dtos.len(),
{
    if dtos.len() > 0 {
        lemma_results_fit(start, dtos.drop_last(), ids, verdicts, batch, now);
    }
}

} // verus!
