//! Which tasks a dedupe check compares, and where rows are stored.

use crate::db::task_insert::{
    applicable, ascending, does_check, flushed, looked_at, DedupeCheck, PreparedRun,
};
use crate::handlers::create::waits;
use crate::models::{rows, Matcher, MatcherView, TaskRow};
use crate::rule::{
    extracted, first_missing, json_member, lemma_ordered, ordered, slot_text, text_pairs,
};
use crate::store::Tables;
use vstd::prelude::*;

verus! {

proof fn lemma_none_missing(metadata: Seq<char>, fields: Seq<Seq<char>>)
    ensures
        first_missing(metadata, fields) is None <==> forall|i: int|
            0 <= i < fields.len() ==> json_member(metadata, #[trigger] fields[i]) is Some,
    decreases fields.len(),
{
    if fields.len() > 0 {
        let init = fields.drop_last();
        lemma_none_missing(metadata, init);
        let n = fields.len() - 1;
        assert(fields[n] == fields.last());
        if first_missing(metadata, init) is None {
            assert forall|i: int| 0 <= i < n implies json_member(
                metadata,
                #[trigger] fields[i],
            ) is Some by {
                assert(init[i] == fields[i]);
            }
        } else {
            let i = choose|i: int|
                0 <= i < init.len() && json_member(metadata, #[trigger] init[i]) is None;
            assert(fields[i] == init[i]);
        }
    }
}

/// A dedupe rule is asked if and only if the task has metadata with all the fields that it
/// compares; without fields it is asked in any case.
pub proof fn rules_are_asked_when_they_can_be(m: Matcher, metadata: Option<Seq<char>>)
    ensures
        m@.fields.len() == 0 ==> applicable(metadata)(m),
        m@.fields.len() > 0 && metadata is None ==> !applicable(metadata)(m),
        metadata is Some ==> (applicable(metadata)(m) <==> forall|i: int|
            0 <= i < m@.fields.len() ==> json_member(metadata->0, #[trigger] m@.fields[i]) is Some),
        metadata is Some ==> looked_at(metadata) == metadata->0,
{
    lemma_none_missing(looked_at(metadata), m@.fields);
}

/// A check compares each field of its rule, once, with the value that the task's metadata
/// have for it, and no other field.
pub proof fn checks_compare_the_fields_of_their_rule(
    c: DedupeCheck,
    m: MatcherView,
    metadata: Seq<char>,
    f: Seq<char>,
    v: Seq<char>,
)
    requires
        does_check(c, m, metadata),
        forall|i: int|
            0 <= i < m.fields.len() ==> json_member(metadata, #[trigger] m.fields[i]) is Some,
    ensures
        text_pairs(c.pattern@).contains((f, v)) <==> m.fields.contains(f) && json_member(
            metadata,
            f,
        ) == Some(v),
        forall|i: int, j: int|
            0 <= i < j < text_pairs(c.pattern@).len() ==> (#[trigger] text_pairs(c.pattern@)[i]).0
                != (#[trigger] text_pairs(c.pattern@)[j]).0,
        c.lock_text@ == slot_text(m, metadata),
{
    let names = ordered(m.fields);
    let pairs = text_pairs(c.pattern@);
    lemma_ordered(m.fields);
    assert(pairs == extracted(metadata, names));
    if pairs.contains((f, v)) {
        let i = choose|i: int| 0 <= i < pairs.len() && pairs[i] == (f, v);
        assert(names[i] == f);
        assert(names.contains(f));
        assert(m.fields.contains(f));
        let k = choose|k: int| 0 <= k < m.fields.len() && m.fields[k] == f;
        assert(json_member(metadata, m.fields[k]) is Some);
    }
    if m.fields.contains(f) && json_member(metadata, f) == Some(v) {
        assert(names.contains(f));
        let i = choose|i: int| 0 <= i < names.len() && names[i] == f;
        assert(pairs[i] == (f, v));
    }
    assert forall|i: int, j: int| 0 <= i < j < pairs.len() implies (#[trigger] pairs[i]).0 != (
    #[trigger] pairs[j]).0 by {
        assert(pairs[i].0 == names[i] && pairs[j].0 == names[j]);
        crate::text::lemma_not_before_itself(names[i]);
        assert(crate::text::text_before(names[i], names[j]));
    }
}

/// A task counts as dependent if and only if it waits for a task to finish.
pub proof fn dependent_tasks_wait(t: TaskRow)
    ensures
        waits()(t) <==> t.wait_finished > 0,
{
}

/// Locks are taken in the order of their numbers, each once.
pub proof fn locks_are_taken_in_order(keys: Seq<i64>, i: int, j: int)
    requires
        ascending(keys),
        0 <= i < j < keys.len(),
    ensures
        keys[i] < keys[j],
{
}

/// The rows of a run go to the ends of their tables, and other tables stay.
pub proof fn runs_go_to_the_ends(t: Tables, run: PreparedRun)
    ensures
        ({
            let f = flushed(t, run);
            &&& f == (Tables { tasks: f.tasks, links: f.links, actions: f.actions, ..t })
            &&& f.tasks.take(t.tasks.len() as int) == t.tasks && f.tasks.skip(t.tasks.len() as int)
                == rows(run.tasks@)
            &&& f.links.take(t.links.len() as int) == t.links && f.links.skip(t.links.len() as int)
                == run.links@
            &&& f.actions.take(t.actions.len() as int) == t.actions && f.actions.skip(
                t.actions.len() as int,
            ) == run.actions@
        }),
{
    let f = flushed(t, run);
    assert(f.tasks.take(t.tasks.len() as int) =~= t.tasks);
    assert(f.tasks.skip(t.tasks.len() as int) =~= rows(run.tasks@));
    assert(f.links.take(t.links.len() as int) =~= t.links);
    assert(f.links.skip(t.links.len() as int) =~= run.links@);
    assert(f.actions.take(t.actions.len() as int) =~= t.actions);
    assert(f.actions.skip(t.actions.len() as int) =~= run.actions@);
}

} // verus!
