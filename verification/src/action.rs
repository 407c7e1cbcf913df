//! Webhook actions: their parameters, idempotency keys, request bodies and
//! responses.

use crate::models::{opt_text, StatusKind, TriggerCondition, TriggerKind};
use crate::tally::lemma_filter_take;
use crate::text::{lemma_uuid_text_injective, same_text, uuid_text, uuid_to_string};
use vstd::prelude::*;

verus! {

/// The idempotency key of a task's webhook event.
pub open spec fn idem_key(task: u128, trigger: TriggerKind, condition: TriggerCondition) -> Seq<
    char,
> {
    uuid_text(task) + match trigger {
        TriggerKind::Start => ":start"@,
        TriggerKind::End => match condition {
            TriggerCondition::Success => ":end:success"@,
            TriggerCondition::Failure => ":end:failure"@,
        },
        TriggerKind::Cancel => ":cancel"@,
        TriggerKind::BatchComplete => ":batch_complete_misuse"@,
    }
}

/// The idempotency key of a batch's completion.
pub open spec fn batch_key(batch: u128) -> Seq<char> {
    "batch:"@ + uuid_text(batch) + ":complete"@
}

/// Build an idempotency key for a webhook trigger event.
///
/// - Start: `{task_id}:start`
/// - End, success: `{task_id}:end:success`
/// - End, failure: `{task_id}:end:failure`
/// - Cancel: `{task_id}:cancel`
///
/// A batch completion is not keyed by a task: see
/// [`batch_complete_idempotency_key`]. Here it gives a clearly marked key.
pub fn idempotency_key(task_id: u128, trigger: &TriggerKind, condition: &TriggerCondition) -> (r:
    String)
    ensures
        r@ == idem_key(task_id, *trigger, *condition),
{
    let id: String = uuid_to_string(task_id);
    match trigger {
        TriggerKind::Start => id.concat(":start"),
        TriggerKind::End => match condition {
            TriggerCondition::Success => id.concat(":end:success"),
            TriggerCondition::Failure => id.concat(":end:failure"),
        },
        TriggerKind::Cancel => id.concat(":cancel"),
        TriggerKind::BatchComplete => id.concat(":batch_complete_misuse"),
    }
}

/// Idempotency key for a batch-complete webhook event: `batch:<batch_id>:complete`.
pub fn batch_complete_idempotency_key(batch_id: u128) -> (r: String)
    ensures
        r@ == batch_key(batch_id),
{
    "batch:".to_string().concat(uuid_to_string(batch_id).as_str()).concat(":complete")
}

/// The part of a task event that its key tells apart: the condition counts for
/// end events only.
pub open spec fn event(trigger: TriggerKind, condition: TriggerCondition) -> (
    TriggerKind,
    Option<TriggerCondition>,
) {
    (
        trigger,
        if trigger == TriggerKind::End {
            Some(condition)
        } else {
            None
        },
    )
}

/// Two task events have the same idempotency key exactly when they are the same
/// event of the same task.
pub proof fn task_keys_distinguish_events(
    a: u128,
    ta: TriggerKind,
    ca: TriggerCondition,
    b: u128,
    tb: TriggerKind,
    cb: TriggerCondition,
)
    ensures
        idem_key(a, ta, ca) == idem_key(b, tb, cb) <==> a == b && event(ta, ca) == event(tb, cb),
{
    reveal_strlit(":start");
    reveal_strlit(":end:success");
    reveal_strlit(":end:failure");
    reveal_strlit(":cancel");
    reveal_strlit(":batch_complete_misuse");
    let ka = idem_key(a, ta, ca);
    let kb = idem_key(b, tb, cb);
    if ka == kb {
        assert(ka.take(36) =~= uuid_text(a));
        assert(kb.take(36) =~= uuid_text(b));
        lemma_uuid_text_injective(a, b);
        assert(ka.len() == kb.len());
        assert(ka[41] == kb[41]);
    }
}

/// Two batches have different completion keys.
pub proof fn batch_keys_distinguish_batches(a: u128, b: u128)
    ensures
        batch_key(a) == batch_key(b) <==> a == b,
{
    reveal_strlit("batch:");
    reveal_strlit(":complete");
    let ka = batch_key(a);
    let kb = batch_key(b);
    if ka == kb {
        assert(ka.subrange(6, 42) =~= uuid_text(a));
        assert(kb.subrange(6, 42) =~= uuid_text(b));
        lemma_uuid_text_injective(a, b);
    }
}

/// A task event never shares its key with a batch completion.
pub proof fn task_and_batch_keys_differ(
    task: u128,
    trigger: TriggerKind,
    condition: TriggerCondition,
    batch: u128,
)
    ensures
        idem_key(task, trigger, condition) != batch_key(batch),
{
    reveal_strlit(":start");
    reveal_strlit(":end:success");
    reveal_strlit(":end:failure");
    reveal_strlit(":cancel");
    reveal_strlit(":batch_complete_misuse");
    reveal_strlit("batch:");
    reveal_strlit(":complete");
    assert(idem_key(task, trigger, condition).len() != batch_key(batch).len());
}

// ---------------------------------------------------------------------------
// Requests
// ---------------------------------------------------------------------------

/// HTTP method for webhook calls.
#[derive(Clone, Copy, Debug, PartialEq, Eq, Structural)]
pub enum HttpVerb {
    /// HTTP GET
    Get,
    /// HTTP POST
    Post,
    /// HTTP DELETE
    Delete,
    /// HTTP PUT
    Put,
    /// HTTP PATCH
    Patch,
}

impl HttpVerb {
    /// The name of the HTTP method.
    pub fn method(self) -> (r: &'static str)
        ensures
            r@ == match self {
                HttpVerb::Get => "GET"@,
                HttpVerb::Post => "POST"@,
                HttpVerb::Delete => "DELETE"@,
                HttpVerb::Put => "PUT"@,
                HttpVerb::Patch => "PATCH"@,
            },
    {
        match self {
            HttpVerb::Get => "GET",
            HttpVerb::Post => "POST",
            HttpVerb::Delete => "DELETE",
            HttpVerb::Put => "PUT",
            HttpVerb::Patch => "PATCH",
        }
    }
}

/// A JSON request body: the members of an object, each a key with the JSON text
/// of its value, or the JSON text of any other value.
#[derive(Debug)]
pub enum WebhookBody {
    /// An object.
    Object(Vec<(String, String)>),
    /// Any other value.
    Other(String),
}

/// A JSON request body, viewed mathematically.
pub enum BodyView {
    Object(Seq<(Seq<char>, Seq<char>)>),
    Other(Seq<char>),
}

/// The views of pairs of texts.
pub open spec fn pairs(v: Seq<(String, String)>) -> Seq<(Seq<char>, Seq<char>)> {
    v.map_values(|p: (String, String)| (p.0@, p.1@))
}

impl View for WebhookBody {
    type V = BodyView;

    open spec fn view(&self) -> BodyView {
        match self {
            WebhookBody::Object(m) => BodyView::Object(pairs(m@)),
            WebhookBody::Other(t) => BodyView::Other(t@),
        }
    }
}

/// The view of an optional body.
pub open spec fn opt_body(o: Option<WebhookBody>) -> Option<BodyView> {
    match o {
        Some(b) => Some(b@),
        None => None,
    }
}

/// Parameters of a webhook action.
#[derive(Debug)]
pub struct WebhookParams {
    /// The URL to call.
    pub url: String,
    /// HTTP method to use.
    pub verb: HttpVerb,
    /// Optional JSON body.
    pub body: Option<WebhookBody>,
    /// Optional HTTP headers.
    pub headers: Option<Vec<(String, String)>>,
}

/// The final state of a task, for its end and cancel notifications.
#[derive(Debug)]
pub struct WebhookEnrichment {
    /// Final status.
    pub status: StatusKind,
    /// When the task reached it.
    pub ended_at: Option<i64>,
    /// `end` or `cancel`.
    pub trigger: String,
}

/// The body with the enrichment merged in, if there is one: an object keeps its
/// members and gets the member `arcrun`, in place of one it may have had; any
/// other body is kept under `body`.
pub open spec fn merged(body: Option<BodyView>, enrichment: Option<Seq<char>>) -> Option<BodyView> {
    match enrichment {
        None => body,
        Some(e) => Some(
            BodyView::Object(
                match body {
                    Some(BodyView::Object(m)) => m.filter(not_reserved()).push(("arcrun"@, e)),
                    Some(BodyView::Other(t)) => seq![("arcrun"@, e), ("body"@, t)],
                    None => seq![("arcrun"@, e)],
                },
            ),
        ),
    }
}

/// The members other than `arcrun`.
pub open spec fn not_reserved() -> spec_fn((Seq<char>, Seq<char>)) -> bool {
    |p: (Seq<char>, Seq<char>)| p.0 != "arcrun"@
}

/// Merges an optional enrichment, as JSON text, into a webhook body.
pub fn merge_enrichment(body: Option<WebhookBody>, enrichment: Option<String>) -> (r: Option<
    WebhookBody,
>)
    ensures
        opt_body(r) == merged(opt_body(body), opt_text(enrichment)),
{
    let e: String = match enrichment {
        None => {
            return body;
        },
        Some(e) => e,
    };
    let mut members: Vec<(String, String)> = Vec::new();
    match body {
        Some(WebhookBody::Object(old_members)) => {
            let ghost all = pairs(old_members@);
            let ghost keep = not_reserved();
            let mut i: usize = 0;
            proof {
                reveal(Seq::filter);
                assert(pairs(members@) =~= all.take(0).filter(keep));
            }
            while i < old_members.len()
                invariant
                    i <= old_members.len(),
                    all == pairs(old_members@),
                    keep == not_reserved(),
                    pairs(members@) =~= all.take(i as int).filter(keep),
                decreases old_members.len() - i,
            {
                let key: String = old_members[i].0.clone();
                let value: String = old_members[i].1.clone();
                proof {
                    lemma_filter_take(all, keep, i as int);
                    assert(all[i as int] == (key@, value@));
                    assert(pairs(members@.push((key, value))) =~= pairs(members@).push(
                        (key@, value@),
                    ));
                }
                if !same_text(key.as_str(), "arcrun") {
                    members.push((key, value));
                }
                i += 1;
            }
            assert(all.take(i as int) =~= all);
            let ghost part = members@;
            let name: String = "arcrun".to_string();
            proof {
                assert(pairs(part.push((name, e))) =~= pairs(part).push((name@, e@)));
            }
            members.push((name, e));
        },
        Some(WebhookBody::Other(t)) => {
            let first: String = "arcrun".to_string();
            let second: String = "body".to_string();
            let ghost want = seq![(first@, e@), (second@, t@)];
            members.push((first, e));
            members.push((second, t));
            assert(pairs(members@) =~= want);
        },
        None => {
            let first: String = "arcrun".to_string();
            let ghost want = seq![(first@, e@)];
            members.push((first, e));
            assert(pairs(members@) =~= want);
        },
    }
    Some(WebhookBody::Object(members))
}

/// Merging keeps every other member of an object body.
pub proof fn merge_keeps_members(
    m: Seq<(Seq<char>, Seq<char>)>,
    e: Seq<char>,
    p: (Seq<char>, Seq<char>),
)
    requires
        m.contains(p),
        p.0 != "arcrun"@,
    ensures
        merged(Some(BodyView::Object(m)), Some(e))->0->Object_0.contains(p),
{
    crate::tally::lemma_filter_has(m, not_reserved(), p);
    let kept = m.filter(not_reserved());
    let k = choose|k: int| 0 <= k < kept.len() && kept[k] == p;
    assert(kept.push(("arcrun"@, e))[k] == p);
}

/// What a webhook call needs to know of the service.
#[derive(Debug)]
pub struct ActionContext {
    /// The public address of the service.
    pub host_address: String,
    /// How long, in microseconds, a webhook execution may stay pending before it
    /// may be retried.
    pub webhook_idempotency_timeout: u128,
}

/// An HTTP request to send.
#[derive(Debug)]
pub struct WebhookRequest {
    /// Method.
    pub verb: HttpVerb,
    /// Target.
    pub url: String,
    /// The `handle` query parameter, where the consumer may report back.
    pub handle: Option<String>,
    /// JSON body.
    pub body: Option<WebhookBody>,
    /// Headers, in the order in which they are added.
    pub headers: Vec<(String, String)>,
}

/// The headers of a request: the action's own, then the idempotency key and the
/// task where there are any, then the trigger.
pub open spec fn request_headers(
    own: Seq<(Seq<char>, Seq<char>)>,
    idem_key: Option<Seq<char>>,
    task_id: Option<Seq<char>>,
    trigger: Seq<char>,
) -> Seq<(Seq<char>, Seq<char>)> {
    let with_key = match idem_key {
        Some(k) => own.push(("Idempotency-Key"@, k)),
        None => own,
    };
    let with_task = match task_id {
        Some(t) => with_key.push(("X-Task-Id"@, t)),
        None => with_key,
    };
    with_task.push(("X-Task-Trigger"@, trigger))
}

/// The action's own headers.
pub open spec fn own_headers(h: Option<Vec<(String, String)>>) -> Seq<(Seq<char>, Seq<char>)> {
    match h {
        Some(v) => pairs(v@),
        None => Seq::empty(),
    }
}

/// Adds a header.
fn push_header(headers: &mut Vec<(String, String)>, name: &str, value: &str)
    ensures
        pairs(final(headers)@) == pairs(old(headers)@).push((name@, value@)),
{
    let ghost before = headers@;
    let n: String = name.to_string();
    let v: String = value.to_string();
    assert(pairs(before.push((n, v))) =~= pairs(before).push((n@, v@)));
    headers.push((n, v));
}

/// The view of an optional text slice.
pub open spec fn opt_str(o: Option<&str>) -> Option<Seq<char>> {
    match o {
        Some(s) => Some(s@),
        None => None,
    }
}

/// Builds the request of a webhook call. `body` is the body to send, with any
/// enrichment already merged in.
pub fn webhook_request(
    params: WebhookParams,
    body: Option<WebhookBody>,
    handle: Option<String>,
    idem_key: Option<&str>,
    trigger_str: &str,
    task_id_header: Option<&str>,
) -> (r: WebhookRequest)
    ensures
        r.verb == params.verb,
        r.url == params.url,
        r.handle == handle,
        r.body == body,
        pairs(r.headers@) == request_headers(
            own_headers(params.headers),
            opt_str(idem_key),
            opt_str(task_id_header),
            trigger_str@,
        ),
{
    let mut headers: Vec<(String, String)> = match params.headers {
        Some(h) => h,
        None => Vec::new(),
    };
    assert(pairs(headers@) =~= own_headers(params.headers));
    if let Some(key) = idem_key {
        push_header(&mut headers, "Idempotency-Key", key);
    }
    if let Some(tid) = task_id_header {
        push_header(&mut headers, "X-Task-Id", tid);
    }
    push_header(&mut headers, "X-Task-Trigger", trigger_str);
    WebhookRequest { verb: params.verb, url: params.url, handle, body, headers }
}

/// The name of a trigger.
pub open spec fn trigger_name(trigger: TriggerKind) -> Seq<char> {
    match trigger {
        TriggerKind::Start => "start"@,
        TriggerKind::End => "end"@,
        TriggerKind::Cancel => "cancel"@,
        TriggerKind::BatchComplete => "batch_complete"@,
    }
}

/// The name of a trigger.
pub fn trigger_str(trigger: TriggerKind) -> (r: &'static str)
    ensures
        r@ == trigger_name(trigger),
{
    match trigger {
        TriggerKind::Start => "start",
        TriggerKind::End => "end",
        TriggerKind::Cancel => "cancel",
        TriggerKind::BatchComplete => "batch_complete",
    }
}

/// Where the consumer of a task's webhook reports back.
pub open spec fn handle_of(host: Seq<char>, task: u128) -> Seq<char> {
    host + "/task/"@ + uuid_text(task)
}

/// The error for parameters that do not parse.
pub open spec fn params_error(e: Seq<char>) -> Seq<char> {
    "Failed to parse webhook params: "@ + e
}

/// Builds the request of a task-level webhook: it carries the `handle` callback
/// URL, the task headers, and any enrichment merged into its body. `params` is
/// the outcome of parsing the action's parameters.
pub fn execute_with_enrichment(
    ctx: &ActionContext,
    params: Result<WebhookParams, String>,
    trigger: TriggerKind,
    task_id: u128,
    idem_key: Option<&str>,
    enrichment: Option<String>,
) -> (r: Result<WebhookRequest, String>)
    ensures
        match params {
            Err(e) => r matches Err(x) && x@ == params_error(e@),
            Ok(p) => {
                &&& r matches Ok(q)
                &&& q.verb == p.verb
                &&& q.url == p.url
                &&& opt_text(q.handle) == Some(handle_of(ctx.host_address@, task_id))
                &&& opt_body(q.body) == merged(opt_body(p.body), opt_text(enrichment))
                &&& pairs(q.headers@) == request_headers(
                    own_headers(p.headers),
                    opt_str(idem_key),
                    Some(uuid_text(task_id)),
                    trigger_name(trigger),
                )
            },
        },
{
    let params: WebhookParams = match params {
        Ok(p) => p,
        Err(e) => {
            return Err("Failed to parse webhook params: ".to_string().concat(e.as_str()));
        },
    };
    let id: String = uuid_to_string(task_id);
    let handle: String = ctx.host_address.clone().concat("/task/").concat(id.as_str());
    let WebhookParams { url, verb, body, headers } = params;
    let body: Option<WebhookBody> = merge_enrichment(body, enrichment);
    Ok(
        webhook_request(
            WebhookParams { url, verb, body: None, headers },
            body,
            Some(handle),
            idem_key,
            trigger_str(trigger),
            Some(id.as_str()),
        ),
    )
}

/// Builds the request of a task-level webhook without enrichment.
pub fn execute(
    ctx: &ActionContext,
    params: Result<WebhookParams, String>,
    trigger: TriggerKind,
    task_id: u128,
    idem_key: Option<&str>,
) -> (r: Result<WebhookRequest, String>)
    ensures
        match params {
            Err(e) => r matches Err(x) && x@ == params_error(e@),
            Ok(p) => {
                &&& r matches Ok(q)
                &&& q.verb == p.verb
                &&& q.url == p.url
                &&& opt_text(q.handle) == Some(handle_of(ctx.host_address@, task_id))
                &&& opt_body(q.body) == opt_body(p.body)
                &&& pairs(q.headers@) == request_headers(
                    own_headers(p.headers),
                    opt_str(idem_key),
                    Some(uuid_text(task_id)),
                    trigger_name(trigger),
                )
            },
        },
{
    execute_with_enrichment(ctx, params, trigger, task_id, idem_key, None)
}

/// Builds the request of a batch-level webhook: there is no callback and no task
/// header, and the enrichment is always merged in.
pub fn execute_batch_action(
    params: Result<WebhookParams, String>,
    idem_key: Option<&str>,
    enrichment: String,
) -> (r: Result<WebhookRequest, String>)
    ensures
        match params {
            Err(e) => r matches Err(x) && x@ == params_error(e@),
            Ok(p) => {
                &&& r matches Ok(q)
                &&& q.verb == p.verb
                &&& q.url == p.url
                &&& q.handle is None
                &&& opt_body(q.body) == merged(opt_body(p.body), Some(enrichment@))
                &&& pairs(q.headers@) == request_headers(
                    own_headers(p.headers),
                    opt_str(idem_key),
                    None,
                    "batch_complete"@,
                )
            },
        },
{
    let params: WebhookParams = match params {
        Ok(p) => p,
        Err(e) => {
            return Err("Failed to parse webhook params: ".to_string().concat(e.as_str()));
        },
    };
    let WebhookParams { url, verb, body, headers } = params;
    let body: Option<WebhookBody> = merge_enrichment(body, Some(enrichment));
    Ok(
        webhook_request(
            WebhookParams { url, verb, body: None, headers },
            body,
            None,
            idem_key,
            "batch_complete",
            None,
        ),
    )
}

/// What came back from sending a request.
#[derive(Debug)]
pub enum SendOutcome {
    /// The request could not be sent.
    Unsent(String),
    /// A response came back.
    Response {
        /// Its status code.
        code: u16,
        /// The status as text, such as `404 Not Found`.
        status: String,
    },
}

/// Why a webhook call failed, if it did: it was not sent, it was answered with a
/// redirect, or with anything else than a success.
pub open spec fn send_failure(o: SendOutcome) -> Option<Seq<char>> {
    match o {
        SendOutcome::Unsent(e) => Some("Failed to send request: "@ + e@),
        SendOutcome::Response { code, status } => if 300 <= code < 400 {
            Some("Webhook returned redirect status "@ + status@ + " — redirects are disabled"@)
        } else if 200 <= code < 300 {
            None
        } else {
            Some("Request failed with status: "@ + status@)
        },
    }
}

/// Judges what came back from a webhook call. `Ok` is a success, whose body may
/// hold an action; redirects are never followed.
pub fn send_webhook_outcome(o: &SendOutcome) -> (r: Result<(), String>)
    ensures
        match r {
            Ok(_) => send_failure(*o) is None,
            Err(e) => send_failure(*o) == Some(e@),
        },
{
    match o {
        SendOutcome::Unsent(e) => Err("Failed to send request: ".to_string().concat(e.as_str())),
        SendOutcome::Response { code, status } => if 300 <= *code && *code < 400 {
            Err(
                "Webhook returned redirect status ".to_string().concat(status.as_str()).concat(
                    " — redirects are disabled",
                ),
            )
        } else if 200 <= *code && *code < 300 {
            Ok(())
        } else {
            Err("Request failed with status: ".to_string().concat(status.as_str()))
        },
    }
}

} // verus!
