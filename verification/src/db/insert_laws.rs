//! Laws on the creation of tasks.

use crate::db::task_insert::{
    deps_of, inserted, known, known_required, links_of, mapped, new_row, summaries, with_task,
    written, Inserted,
};
use crate::db::task_lifecycle::is_task;
use crate::dtos::{Dependency, NewTaskDto};
use crate::models::{Link, TaskRow};
use crate::store::Tables;
use crate::tally::{
    count, lemma_count_concat, lemma_count_filter, lemma_count_same, lemma_count_zero,
    lemma_filter_has,
};
use crate::workers::propagation::{
    deps_ok, live, row_deps_ok, unique_ids, waits_for, waits_for_success,
};
use vstd::prelude::*;

verus! {

/// Both ends of every link are tasks.
pub open spec fn links_known(t: Tables) -> bool {
    forall|k: int|
        0 <= k < t.links.len() ==> is_task(t.tasks, (#[trigger] t.links[k]).parent_id) && is_task(
            t.tasks,
            t.links[k].child_id,
        )
}

/// The tasks and links are a graph whose counters agree with it.
pub open spec fn graph_ok(t: Tables) -> bool {
    &&& unique_ids(t.tasks)
    &&& links_known(t)
    &&& deps_ok(t.tasks, t.links, Seq::empty())
}

/// Every local id stands for a live task.
pub open spec fn mapping_live(m: Seq<(Seq<char>, u128)>, tasks: Seq<TaskRow>) -> bool {
    forall|k: int| 0 <= k < m.len() ==> live(tasks, (#[trigger] m[k]).1)
}

proof fn lemma_mapped_live(m: Seq<(Seq<char>, u128)>, tasks: Seq<TaskRow>, id: Seq<char>)
    requires
        mapping_live(m, tasks),
    ensures
        mapped(m, id) is Some ==> live(tasks, mapped(m, id)->0),
    decreases m.len(),
{
    if m.len() > 0 {
        if m.last().0 == id {
            assert(live(tasks, m[m.len() - 1].1));
        } else {
            assert forall|k: int| 0 <= k < m.drop_last().len() implies live(
                tasks,
                (#[trigger] m.drop_last()[k]).1,
            ) by {
                assert(live(tasks, m[k].1));
            }
            lemma_mapped_live(m.drop_last(), tasks, id);
        }
    }
}

/// The counters of a new task are the numbers of its links.
proof fn lemma_links_counted(deps: Seq<Dependency>, m: Seq<(Seq<char>, u128)>, child: u128)
    ensures
        links_of(deps, m, child).len() == count(deps, known(m)),
        count(links_of(deps, m, child), |l: Link| l.requires_success) == count(
            deps,
            known_required(m),
        ),
        forall|k: int|
            0 <= k < links_of(deps, m, child).len() ==> (#[trigger] links_of(
                deps,
                m,
                child,
            )[k]).child_id == child && exists|d: Dependency|
                known(m)(d) && mapped(m, #[trigger] d.id@) == Some(
                    links_of(deps, m, child)[k].parent_id,
                ),
{
    let sel = deps.filter(known(m));
    let links = links_of(deps, m, child);
    let all = |d: Dependency| true;
    let hard = |d: Dependency| d.requires_success;
    lemma_count_filter(deps, known(m), all);
    lemma_count_same(deps, |d: Dependency| known(m)(d) && all(d), deps, known(m));
    lemma_all_counted(sel, all);
    lemma_count_filter(deps, known(m), hard);
    lemma_count_same(deps, |d: Dependency| known(m)(d) && hard(d), deps, known_required(m));
    lemma_count_same(links, |l: Link| l.requires_success, sel, hard);
    assert forall|k: int| 0 <= k < links.len() implies (#[trigger] links[k]).child_id == child
        && exists|d: Dependency|
        known(m)(d) && mapped(m, #[trigger] d.id@) == Some(links[k].parent_id) by {
        lemma_filter_has(deps, known(m), sel[k]);
        assert(sel.contains(sel[k]));
        let d = sel[k];
        assert(known(m)(d) && mapped(m, d.id@) == Some(links[k].parent_id));
    }
}

proof fn lemma_all_counted<A>(s: Seq<A>, p: spec_fn(A) -> bool)
    requires
        forall|a: A| #[trigger] p(a),
    ensures
        count(s, p) == s.len(),
    decreases s.len(),
{
    if s.len() > 0 {
        lemma_all_counted(s.drop_last(), p);
    }
}

/// Creating a task keeps the graph, and leaves every local id standing for a live
/// task.
proof fn lemma_one_insert(
    t: Tables,
    m: Seq<(Seq<char>, u128)>,
    dto: NewTaskDto,
    id: u128,
    batch_id: Option<u128>,
    now: int,
)
    requires
        graph_ok(t),
        mapping_live(m, t.tasks),
        !is_task(t.tasks, id),
    ensures
        graph_ok(with_task(t, dto, id, batch_id, m, now)),
        mapping_live(
            m.push((dto.id@, id)),
            with_task(t, dto, id, batch_id, m, now).tasks,
        ),
        forall|x: u128| #[trigger]
            is_task(with_task(t, dto, id, batch_id, m, now).tasks, x) <==> x == id || is_task(
                t.tasks,
                x,
            ),
{
    let u = with_task(t, dto, id, batch_id, m, now);
    let row = new_row(dto, id, batch_id, m, now);
    let deps = deps_of(dto);
    let new = links_of(deps, m, id);
    let none = Seq::<u128>::empty();
    let n = t.tasks.len() as int;
    lemma_links_counted(deps, m, id);
    assert(u.tasks[n] == row);
    assert(live(u.tasks, id)) by {
        assert(u.tasks[n].id == id && !u.tasks[n].status.terminal());
    }
    assert forall|x: u128| #[trigger] is_task(u.tasks, x) <==> x == id || is_task(t.tasks, x) by {
        if is_task(t.tasks, x) {
            let i = choose|i: int| 0 <= i < t.tasks.len() && #[trigger] t.tasks[i].id == x;
            assert(u.tasks[i].id == x);
        }
        if is_task(u.tasks, x) {
            let i = choose|i: int| 0 <= i < u.tasks.len() && #[trigger] u.tasks[i].id == x;
            if i < n {
                assert(t.tasks[i].id == x);
            }
        }
        if x == id {
            assert(u.tasks[n].id == x);
        }
    }
    assert forall|x: u128| x != id implies #[trigger] live(u.tasks, x) == live(t.tasks, x) by {
        if live(t.tasks, x) {
            let i = choose|i: int|
                0 <= i < t.tasks.len() && #[trigger] t.tasks[i].id == x
                    && !t.tasks[i].status.terminal();
            assert(u.tasks[i] == t.tasks[i]);
        }
        if live(u.tasks, x) {
            let i = choose|i: int|
                0 <= i < u.tasks.len() && #[trigger] u.tasks[i].id == x
                    && !u.tasks[i].status.terminal();
            assert(u.tasks[i] == t.tasks[i]);
        }
    }
    assert forall|i: int, j: int|
        0 <= i < u.tasks.len() && 0 <= j < u.tasks.len() && #[trigger] u.tasks[i].id
            == #[trigger] u.tasks[j].id implies i == j by {
        if i < n && j < n {
            assert(t.tasks[i].id == t.tasks[j].id);
        } else if i < n {
            assert(t.tasks[i].id == id);
        } else if j < n {
            assert(t.tasks[j].id == id);
        }
    }
    assert forall|k: int| 0 <= k < new.len() implies live(t.tasks, (#[trigger] new[k]).parent_id)
        && new[k].parent_id != id && is_task(t.tasks, new[k].parent_id) by {
        let d = choose|d: Dependency|
            known(m)(d) && mapped(m, #[trigger] d.id@) == Some(new[k].parent_id);
        lemma_mapped_live(m, t.tasks, d.id@);
        let i = choose|i: int|
            0 <= i < t.tasks.len() && #[trigger] t.tasks[i].id == new[k].parent_id
                && !t.tasks[i].status.terminal();
        assert(t.tasks[i].id == new[k].parent_id);
    }
    assert forall|k: int| 0 <= k < u.links.len() implies is_task(
        u.tasks,
        (#[trigger] u.links[k]).parent_id,
    ) && is_task(u.tasks, u.links[k].child_id) by {
        if k < t.links.len() {
            assert(u.links[k] == t.links[k]);
        } else {
            assert(u.links[k] == new[k - t.links.len()]);
        }
    }
    assert forall|k: int| 0 <= k < m.push((dto.id@, id)).len() implies live(
        u.tasks,
        (#[trigger] m.push((dto.id@, id))[k]).1,
    ) by {
        if k < m.len() {
            assert(live(t.tasks, m[k].1));
            let i = choose|i: int|
                0 <= i < t.tasks.len() && #[trigger] t.tasks[i].id == m[k].1
                    && !t.tasks[i].status.terminal();
            assert(t.tasks[i].id != id);
        }
    }
    assert forall|i: int| 0 <= i < u.tasks.len() implies row_deps_ok(
        u.tasks,
        u.links,
        none,
        #[trigger] u.tasks[i],
    ) by {
        let c = u.tasks[i].id;
        let w0 = waits_for(t.tasks, none, c);
        let w1 = waits_for(u.tasks, none, c);
        let s0 = waits_for_success(t.tasks, none, c);
        let s1 = waits_for_success(u.tasks, none, c);
        lemma_count_concat(t.links, new, w1);
        lemma_count_concat(t.links, new, s1);
        assert forall|k: int| 0 <= k < t.links.len() implies (#[trigger] t.links[k]).parent_id
            != id && t.links[k].child_id != id by {
            assert(is_task(t.tasks, t.links[k].parent_id));
        }
        lemma_count_same(t.links, w1, t.links, w0);
        lemma_count_same(t.links, s1, t.links, s0);
        if i < n {
            assert(t.tasks[i] == u.tasks[i]);
            assert(is_task(t.tasks, c));
            assert(row_deps_ok(t.tasks, t.links, none, t.tasks[i]));
            lemma_count_zero(new, w1);
            lemma_count_zero(new, s1);
        } else {
            lemma_count_zero(t.links, w0);
            lemma_count_zero(t.links, s0);
            let every = |l: Link| true;
            lemma_count_same(new, w1, new, every);
            lemma_all_counted(new, every);
            lemma_count_same(new, s1, new, |l: Link| l.requires_success);
        }
    }
}

/// Creating tasks keeps the graph: identifiers stay unique, every link joins two
/// tasks, and every counter agrees with the links, so that a new task starts as
/// `Waiting` exactly when one of its dependencies stands for a task. The ids are
/// new ones.
pub proof fn insert_keeps_graph(
    start: Inserted,
    dtos: Seq<NewTaskDto>,
    ids: Seq<u128>,
    verdicts: Seq<bool>,
    batch_id: Option<u128>,
    now: int,
)
    requires
        graph_ok(start.tables),
        mapping_live(start.mapping, start.tables.tasks),
        ids.len() == dtos.len(),
        ids.no_duplicates(),
        forall|k: int| 0 <= k < ids.len() ==> !is_task(start.tables.tasks, #[trigger] ids[k]),
    ensures
        ({
            let end = inserted(start, dtos, ids, verdicts, batch_id, now);
            &&& graph_ok(end.tables)
            &&& mapping_live(end.mapping, end.tables.tasks)
        }),
{
    lemma_inserts(start, dtos, ids, verdicts, batch_id, now);
}

/// The same, for the first of a longer list of new ids: the others stay new.
pub proof fn lemma_inserts(
    start: Inserted,
    dtos: Seq<NewTaskDto>,
    ids: Seq<u128>,
    verdicts: Seq<bool>,
    batch_id: Option<u128>,
    now: int,
)
    requires
        graph_ok(start.tables),
        mapping_live(start.mapping, start.tables.tasks),
        ids.len() >= dtos.len(),
        ids.no_duplicates(),
        forall|k: int| 0 <= k < ids.len() ==> !is_task(start.tables.tasks, #[trigger] ids[k]),
    ensures
        ({
            let end = inserted(start, dtos, ids, verdicts, batch_id, now);
            &&& graph_ok(end.tables)
            &&& mapping_live(end.mapping, end.tables.tasks)
            &&& forall|k: int|
                dtos.len() <= k < ids.len() ==> !is_task(end.tables.tasks, #[trigger] ids[k])
        }),
    decreases dtos.len(),
{
    if dtos.len() > 0 {
        let n = dtos.len() - 1;
        let s = inserted(start, dtos.drop_last(), ids, verdicts, batch_id, now);
        lemma_inserts(start, dtos.drop_last(), ids, verdicts, batch_id, now);
        if written(dtos[n], verdicts[n]) {
            lemma_one_insert(s.tables, s.mapping, dtos[n], ids[n], batch_id, now);
        }
    }
}

/// The answer to a request holds the summaries of the tasks that it created, in
/// the order in which they were asked for, and existing tasks stay as they are.
pub proof fn insert_answers_in_order(
    start: Inserted,
    dtos: Seq<NewTaskDto>,
    ids: Seq<u128>,
    verdicts: Seq<bool>,
    batch_id: Option<u128>,
    now: int,
)
    requires
        start.results.len() == 0,
    ensures
        ({
            let end = inserted(start, dtos, ids, verdicts, batch_id, now);
            &&& start.tables.tasks =~= end.tables.tasks.take(start.tables.tasks.len() as int)
            &&& end.results =~= summaries(end.tables.tasks.skip(start.tables.tasks.len() as int))
        }),
    decreases dtos.len(),
{
    let k = start.tables.tasks.len() as int;
    if dtos.len() > 0 {
        let n = dtos.len() - 1;
        let s = inserted(start, dtos.drop_last(), ids, verdicts, batch_id, now);
        insert_answers_in_order(start, dtos.drop_last(), ids, verdicts, batch_id, now);
        if written(dtos[n], verdicts[n]) {
            let end = inserted(start, dtos, ids, verdicts, batch_id, now);
            let row = new_row(dtos[n], ids[n], batch_id, s.mapping, now);
            assert(s.tables.tasks.len() >= k) by {
                assert(s.tables.tasks.take(k) =~= start.tables.tasks);
                lemma_grows(start, dtos.drop_last(), ids, verdicts, batch_id, now);
            }
            assert(end.tables.tasks.skip(k) =~= s.tables.tasks.skip(k).push(row));
        }
    }
}

proof fn lemma_grows(
    start: Inserted,
    dtos: Seq<NewTaskDto>,
    ids: Seq<u128>,
    verdicts: Seq<bool>,
    batch_id: Option<u128>,
    now: int,
)
    ensures
        inserted(start, dtos, ids, verdicts, batch_id, now).tables.tasks.len()
            >= start.tables.tasks.len(),
    decreases dtos.len(),
{
    if dtos.len() > 0 {
        lemma_grows(start, dtos.drop_last(), ids, verdicts, batch_id, now);
    }
}

} // verus!
