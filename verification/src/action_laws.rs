//! What a webhook call carries, and when it counts as done.

use crate::action::{
    batch_key, handle_of, idem_key, merged, not_reserved, request_headers, send_failure,
    trigger_name, BodyView, SendOutcome,
};
use crate::models::{StatusKind, TriggerCondition, TriggerKind};
use crate::tally::lemma_filter_has;
use crate::text::{begins_with, ends_in, uuid_text};
use vstd::prelude::*;

verus! {

/// A request has the headers of its action, in their order, then the key and the task,
/// each under its name where there is one, and last the trigger.
pub proof fn requests_carry_their_headers(
    own: Seq<(Seq<char>, Seq<char>)>,
    key: Option<Seq<char>>,
    task: Option<Seq<char>>,
    trigger: Seq<char>,
)
    ensures
        ({
            let h = request_headers(own, key, task, trigger);
            let n = own.len() as int;
            &&& h.len() == n + 1 + (if key is Some {
                1int
            } else {
                0
            }) + (if task is Some {
                1int
            } else {
                0
            })
            &&& forall|i: int| 0 <= i < n ==> h[i] == own[i]
            &&& key matches Some(k) ==> h[n] == ("Idempotency-Key"@, k)
            &&& task matches Some(t) ==> h[h.len() - 2] == ("X-Task-Id"@, t)
            &&& h.last() == ("X-Task-Trigger"@, trigger)
        }),
{
}

/// Triggers are called by their names, and so are the events in keys: the task, and what
/// happened to it.
pub proof fn events_are_called_by_name(task: u128, batch: u128, condition: TriggerCondition)
    ensures
        trigger_name(TriggerKind::Start) == "start"@,
        trigger_name(TriggerKind::End) == "end"@,
        trigger_name(TriggerKind::Cancel) == "cancel"@,
        trigger_name(TriggerKind::BatchComplete) == "batch_complete"@,
        idem_key(task, TriggerKind::Start, condition) == uuid_text(task) + ":start"@,
        idem_key(task, TriggerKind::Cancel, condition) == uuid_text(task) + ":cancel"@,
        ends_in(idem_key(task, TriggerKind::End, TriggerCondition::Success), ":end:success"@),
        ends_in(idem_key(task, TriggerKind::End, TriggerCondition::Failure), ":end:failure"@),
        begins_with(idem_key(task, TriggerKind::End, condition), uuid_text(task)),
        batch_key(batch) == "batch:"@ + uuid_text(batch) + ":complete"@,
{
    let id = uuid_text(task);
    let a = id + ":end:success"@;
    let b = id + ":end:failure"@;
    assert(a.skip(id.len() as int) =~= ":end:success"@);
    assert(b.skip(id.len() as int) =~= ":end:failure"@);
    assert(a.take(id.len() as int) =~= id);
    assert(b.take(id.len() as int) =~= id);
}

/// Without an enrichment a body stays as it is. With one the body is an object in which
/// `arcrun` holds it, and nothing else does; other members are those that the body had, or
/// the whole body under `body` where it was no object.
pub proof fn enrichments_are_merged_under_a_name(
    body: Option<BodyView>,
    e: Seq<char>,
    p: (Seq<char>, Seq<char>),
)
    ensures
        merged(body, None) == body,
        merged(body, Some(e)) is Some,
        merged(body, Some(e))->0 is Object,
        ({
            let m = merged(body, Some(e))->0->Object_0;
            &&& p.0 == "arcrun"@ ==> (m.contains(p) <==> p.1 == e)
            &&& p.0 != "arcrun"@ ==> (m.contains(p) <==> match body {
                Some(BodyView::Object(o)) => o.contains(p),
                Some(BodyView::Other(t)) => p == ("body"@, t),
                None => false,
            })
        }),
{
    let m = merged(body, Some(e))->0->Object_0;
    reveal_strlit("arcrun");
    reveal_strlit("body");
    assert("arcrun"@.len() == 6 && "body"@.len() == 4);
    match body {
        Some(BodyView::Object(o)) => {
            let kept = o.filter(not_reserved());
            lemma_filter_has(o, not_reserved(), p);
            assert(m == kept.push(("arcrun"@, e)));
            assert(m[kept.len() as int] == ("arcrun"@, e));
            if kept.contains(p) {
                let k = choose|k: int| 0 <= k < kept.len() && kept[k] == p;
                assert(m[k] == p);
            }
            if m.contains(p) {
                let k = choose|k: int| 0 <= k < m.len() && m[k] == p;
                if k < kept.len() {
                    assert(kept[k] == p);
                }
            }
        },
        Some(BodyView::Other(t)) => {
            assert(m[0] == ("arcrun"@, e));
            assert(m[1] == ("body"@, t));
        },
        None => {
            assert(m[0] == ("arcrun"@, e));
        },
    }
}

/// A call succeeded if and only if it was answered with one of the codes from 200 to 299.
pub proof fn only_success_codes_succeed(o: SendOutcome)
    ensures
        send_failure(o) is None <==> (o matches SendOutcome::Response { code, .. } && code as int
            / 100 == 2),
{
}

/// A task reports back to a place of its own, at the host.
pub proof fn callbacks_lead_to_their_task(host: Seq<char>, task: u128, other: u128)
    ensures
        begins_with(handle_of(host, task), host + "/task/"@),
        ends_in(handle_of(host, task), uuid_text(task)),
        handle_of(host, task) == handle_of(host, other) ==> task == other,
{
    let h = handle_of(host, task);
    let at = host + "/task/"@;
    assert(h.take(at.len() as int) =~= at);
    assert(h.skip(at.len() as int) =~= uuid_text(task));
    assert(uuid_text(task).len() == 36);
    assert(handle_of(host, other).skip(at.len() as int) =~= uuid_text(other));
    crate::text::lemma_uuid_text_injective(task, other);
}

/// Every status is called by its name, with a capital to readers and without in the
/// database.
pub proof fn statuses_are_called_by_name()
    ensures
        StatusKind::Waiting.name() == "Waiting"@ && StatusKind::Waiting.stored_name() == "waiting"@,
        StatusKind::Pending.name() == "Pending"@ && StatusKind::Pending.stored_name() == "pending"@,
        StatusKind::Claimed.name() == "Claimed"@ && StatusKind::Claimed.stored_name() == "claimed"@,
        StatusKind::Running.name() == "Running"@ && StatusKind::Running.stored_name() == "running"@,
        StatusKind::Failure.name() == "Failure"@ && StatusKind::Failure.stored_name() == "failure"@,
        StatusKind::Success.name() == "Success"@ && StatusKind::Success.stored_name() == "success"@,
        StatusKind::Paused.name() == "Paused"@ && StatusKind::Paused.stored_name() == "paused"@,
        StatusKind::Canceled.name() == "Canceled"@ && StatusKind::Canceled.stored_name()
            == "canceled"@,
{
}

} // verus!
