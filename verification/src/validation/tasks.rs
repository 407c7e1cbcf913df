//! Checks on the tasks of a request.

use crate::action::WebhookParams;
use crate::config::SecurityConfig;
use crate::db::task_insert::deps_of;
use crate::dtos::NewTaskDto;
use crate::models::texts;
use crate::text::{decimal, same_text, to_decimal, trim, trimmed};
use crate::validation::{params_refusal, validate_action_params};
use vstd::prelude::*;

verus! {

/// The message for a task without a name.
pub open spec fn no_name_message(i: nat) -> Seq<char> {
    "tasks["@ + decimal(i) + "].name: Task name cannot be empty"@
}

/// The message for a task without a kind.
pub open spec fn no_kind_message(i: nat) -> Seq<char> {
    "tasks["@ + decimal(i) + "].kind: Task kind cannot be empty"@
}

/// The message for a dependency that no earlier task answers.
pub open spec fn bad_dependency_message(i: nat, id: Seq<char>) -> Seq<char> {
    "tasks["@ + decimal(i) + "].dependencies: no earlier task with id "@ + id
}

/// The message for an action that is refused.
pub open spec fn bad_params_message(i: nat, e: Seq<char>) -> Seq<char> {
    "tasks["@ + decimal(i) + "].params: "@ + e
}

/// Whether one of the first `n` tasks has this local id.
pub open spec fn declared(tasks: Seq<NewTaskDto>, n: nat, id: Seq<char>) -> bool {
    exists|j: int| 0 <= j < n && (#[trigger] tasks[j]).id@ == id
}

/// What is wrong with the first `n` dependencies of task `i`: each must be an earlier
/// task.
pub open spec fn dependency_errors(tasks: Seq<NewTaskDto>, i: nat, n: nat) -> Seq<Seq<char>>
    decreases n,
{
    if n == 0 {
        Seq::empty()
    } else {
        let id = deps_of(tasks[i as int])[n - 1].id@;
        let before = dependency_errors(tasks, i, (n - 1) as nat);
        if declared(tasks, i, id) {
            before
        } else {
            before.push(bad_dependency_message(i, id))
        }
    }
}

/// What is wrong with the first `n` actions of task `i`.
pub open spec fn params_errors(
    params: Seq<Result<WebhookParams, String>>,
    config: SecurityConfig,
    i: nat,
    n: nat,
) -> Seq<Seq<char>>
    decreases n,
{
    if n == 0 {
        Seq::empty()
    } else {
        let before = params_errors(params, config, i, (n - 1) as nat);
        match params_refusal(params[n - 1], config) {
            None => before,
            Some(e) => before.push(bad_params_message(i, e)),
        }
    }
}

/// One message, or none.
pub open spec fn message_if(b: bool, m: Seq<char>) -> Seq<Seq<char>> {
    if b {
        seq![m]
    } else {
        Seq::empty()
    }
}

/// What is wrong with task `i`: its name or its kind is blank, it depends on what is
/// no earlier task, or one of its actions is refused.
pub open spec fn task_errors(
    tasks: Seq<NewTaskDto>,
    params: Seq<Result<WebhookParams, String>>,
    config: SecurityConfig,
    i: nat,
) -> Seq<Seq<char>> {
    let t = tasks[i as int];
    message_if(trimmed(t.name@).len() == 0, no_name_message(i)) + message_if(
        trimmed(t.kind@).len() == 0,
        no_kind_message(i),
    ) + dependency_errors(tasks, i, deps_of(t).len()) + params_errors(params, config, i, params.len())
}

/// What is wrong with the first `n` tasks, in order.
pub open spec fn batch_errors(
    tasks: Seq<NewTaskDto>,
    params: Seq<Vec<Result<WebhookParams, String>>>,
    config: SecurityConfig,
    n: nat,
) -> Seq<Seq<char>>
    decreases n,
{
    if n == 0 {
        Seq::empty()
    } else {
        let i = (n - 1) as nat;
        batch_errors(tasks, params, config, i) + task_errors(
            tasks,
            params[i as int]@,
            config,
            i,
        )
    }
}

/// Executable form of [`declared`].
fn is_declared(tasks: &Vec<NewTaskDto>, n: usize, id: &str) -> (r: bool)
    requires
        n <= tasks@.len(),
    ensures
        r == declared(tasks@, n as nat, id@),
{
    let mut j: usize = 0;
    while j < n
        invariant
            j <= n <= tasks@.len(),
            forall|k: int| 0 <= k < j ==> (#[trigger] tasks@[k]).id@ != id@,
        decreases n - j,
    {
        if same_text(tasks[j].id.as_str(), id) {
            return true;
        }
        j += 1;
    }
    false
}

/// `tasks[i]` and what follows it in a message.
fn task_message(i: usize, rest: &str) -> (r: String)
    ensures
        r@ == "tasks["@ + decimal(i as nat) + rest@,
{
    "tasks[".to_string().concat(to_decimal(i).as_str()).concat(rest)
}

/// Adds what is wrong with the dependencies of a task.
fn check_dependencies(tasks: &Vec<NewTaskDto>, i: usize, errors: &mut Vec<String>)
    requires
        i < tasks@.len(),
    ensures
        texts(final(errors)@) == texts(old(errors)@) + dependency_errors(
            tasks@,
            i as nat,
            deps_of(tasks@[i as int]).len(),
        ),
{
    let ghost start = texts(errors@);
    if let Some(deps) = &tasks[i].dependencies {
        let mut d: usize = 0;
        assert(texts(errors@) =~= start + dependency_errors(tasks@, i as nat, 0));
        while d < deps.len()
            invariant
                i < tasks@.len(),
                d <= deps@.len(),
                deps@ == deps_of(tasks@[i as int]),
                texts(errors@) == start + dependency_errors(tasks@, i as nat, d as nat),
            decreases deps.len() - d,
        {
            let ghost before = errors@;
            if !is_declared(tasks, i, deps[d].id.as_str()) {
                errors.push(
                    task_message(i, "].dependencies: no earlier task with id ").concat(
                        deps[d].id.as_str(),
                    ),
                );
                assert(texts(errors@) =~= texts(before).push(
                    bad_dependency_message(i as nat, deps@[d as int].id@),
                ));
            }
            d += 1;
            assert(texts(errors@) =~= start + dependency_errors(tasks@, i as nat, d as nat));
        }
    } else {
        assert(texts(errors@) =~= start + dependency_errors(tasks@, i as nat, 0));
    }
}

/// Adds what is wrong with the actions of a task.
fn check_params(
    params: &Vec<Result<WebhookParams, String>>,
    config: &SecurityConfig,
    i: usize,
    errors: &mut Vec<String>,
)
    ensures
        texts(final(errors)@) == texts(old(errors)@) + params_errors(
            params@,
            *config,
            i as nat,
            params@.len(),
        ),
{
    let ghost start = texts(errors@);
    let mut p: usize = 0;
    assert(texts(errors@) =~= start + params_errors(params@, *config, i as nat, 0));
    while p < params.len()
        invariant
            p <= params@.len(),
            texts(errors@) == start + params_errors(params@, *config, i as nat, p as nat),
        decreases params.len() - p,
    {
        let ghost before = errors@;
        if let Err(e) = validate_action_params(&params[p], config) {
            errors.push(task_message(i, "].params: ").concat(e.as_str()));
            assert(texts(errors@) =~= texts(before).push(bad_params_message(i as nat, e@)));
        }
        p += 1;
        assert(texts(errors@) =~= start + params_errors(params@, *config, i as nat, p as nat));
    }
}

/// Validates the tasks of a request, given the outcomes of parsing the parameters of
/// each one's actions. All errors are reported; a request without one is in order.
pub fn validate_task_batch(
    tasks: &Vec<NewTaskDto>,
    params: &Vec<Vec<Result<WebhookParams, String>>>,
    config: &SecurityConfig,
) -> (r: Vec<String>)
    requires
        params@.len() == tasks@.len(),
    ensures
        texts(r@) == batch_errors(tasks@, params@, *config, tasks@.len()),
{
    let mut errors: Vec<String> = Vec::new();
    let mut i: usize = 0;
    assert(texts(errors@) =~= batch_errors(tasks@, params@, *config, 0));
    while i < tasks.len()
        invariant
            i <= tasks@.len(),
            params@.len() == tasks@.len(),
            texts(errors@) == batch_errors(tasks@, params@, *config, i as nat),
        decreases tasks.len() - i,
    {
        let ghost start = texts(errors@);
        let ghost t = tasks@[i as int];
        let ghost named = message_if(trimmed(t.name@).len() == 0, no_name_message(i as nat));
        let ghost kinded = message_if(trimmed(t.kind@).len() == 0, no_kind_message(i as nat));
        if trim(tasks[i].name.as_str()).unicode_len() == 0 {
            errors.push(task_message(i, "].name: Task name cannot be empty"));
        }
        assert(texts(errors@) =~= start + named);
        if trim(tasks[i].kind.as_str()).unicode_len() == 0 {
            errors.push(task_message(i, "].kind: Task kind cannot be empty"));
        }
        assert(texts(errors@) =~= start + named + kinded);
        check_dependencies(tasks, i, &mut errors);
        check_params(&params[i], config, i, &mut errors);
        i += 1;
        assert(texts(errors@) =~= batch_errors(tasks@, params@, *config, i as nat));
    }
    errors
}

proof fn lemma_no_dependency_error(tasks: Seq<NewTaskDto>, i: nat, n: nat, d: int)
    requires
        dependency_errors(tasks, i, n).len() == 0,
        0 <= d < n,
    ensures
        declared(tasks, i, deps_of(tasks[i as int])[d].id@),
    decreases n,
{
    if d < n - 1 {
        lemma_no_dependency_error(tasks, i, (n - 1) as nat, d);
    }
}

proof fn lemma_no_task_error(
    tasks: Seq<NewTaskDto>,
    params: Seq<Vec<Result<WebhookParams, String>>>,
    config: SecurityConfig,
    n: nat,
    i: nat,
)
    requires
        batch_errors(tasks, params, config, n).len() == 0,
        i < n,
    ensures
        task_errors(tasks, params[i as int]@, config, i).len() == 0,
    decreases n,
{
    if i < n - 1 {
        lemma_no_task_error(tasks, params, config, (n - 1) as nat, i);
    }
}

/// The tasks of an accepted request form no cycle: whatever a task depends on stands
/// before it.
pub proof fn accepted_dependencies_point_back(
    tasks: Seq<NewTaskDto>,
    params: Seq<Vec<Result<WebhookParams, String>>>,
    config: SecurityConfig,
    i: int,
    d: int,
)
    requires
        batch_errors(tasks, params, config, tasks.len()).len() == 0,
        0 <= i < tasks.len(),
        0 <= d < deps_of(tasks[i]).len(),
    ensures
        exists|j: int| 0 <= j < i && (#[trigger] tasks[j]).id@ == deps_of(tasks[i])[d].id@,
{
    lemma_no_task_error(tasks, params, config, tasks.len(), i as nat);
    lemma_no_dependency_error(tasks, i as nat, deps_of(tasks[i]).len(), d);
}

} // verus!
