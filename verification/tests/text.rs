use arcrun::action::{
    batch_complete_idempotency_key, execute, execute_batch_action, execute_with_enrichment,
    idempotency_key, merge_enrichment, send_webhook_outcome, ActionContext, HttpVerb, SendOutcome,
    WebhookBody, WebhookParams,
};
use arcrun::models::{TriggerCondition, TriggerKind};
use arcrun::text::{
    escape_like_pattern, split_at_first, text_order, to_decimal, trim, truncate, TextOrder,
};

const ID: u128 = 0x0190_1234_5678_7abc_8def_0123_4567_89ab;

#[test]
fn idempotency_keys_name_the_event() {
    let id = "01901234-5678-7abc-8def-0123456789ab";
    assert_eq!(
        idempotency_key(ID, &TriggerKind::Start, &TriggerCondition::Success),
        format!("{}:start", id)
    );
    assert_eq!(
        idempotency_key(ID, &TriggerKind::End, &TriggerCondition::Success),
        format!("{}:end:success", id)
    );
    assert_eq!(
        idempotency_key(ID, &TriggerKind::End, &TriggerCondition::Failure),
        format!("{}:end:failure", id)
    );
    assert_eq!(
        idempotency_key(ID, &TriggerKind::Cancel, &TriggerCondition::Success),
        format!("{}:cancel", id)
    );
    assert_eq!(batch_complete_idempotency_key(ID), format!("batch:{}:complete", id));
}

#[test]
fn like_patterns_are_escaped() {
    assert_eq!(escape_like_pattern("50%_a\\b"), "50\\%\\_a\\\\b");
    assert_eq!(escape_like_pattern("plain"), "plain");
}

#[test]
fn texts_are_cut_and_split() {
    assert_eq!(trim(" \t a b\u{a0}\n"), "a b");
    assert_eq!(split_at_first("a:b:c", ':'), Some(("a", "b:c")));
    assert_eq!(split_at_first("abc", ':'), None);
    assert_eq!(truncate("h\u{e9}llo", 2), "h\u{e9}");
    assert_eq!(truncate("hi", 5), "hi");
    assert!(matches!(text_order("a", "b"), TextOrder::Before));
    assert!(matches!(text_order("b", "ab"), TextOrder::After));
    assert!(matches!(text_order("ab", "ab"), TextOrder::Same));
}

#[test]
fn numbers_are_written_in_decimal() {
    assert_eq!(to_decimal(0), "0");
    assert_eq!(to_decimal(9), "9");
    assert_eq!(to_decimal(10), "10");
    assert_eq!(to_decimal(90210), "90210");
}

fn params() -> WebhookParams {
    WebhookParams {
        url: "https://example.com/hook".to_string(),
        verb: HttpVerb::Put,
        body: None,
        headers: Some(vec![("X-Own".to_string(), "1".to_string())]),
    }
}

#[test]
fn requests_carry_handle_and_headers() {
    let ctx = ActionContext {
        host_address: "https://arc.example".to_string(),
        webhook_idempotency_timeout: 0,
    };
    let r = execute(&ctx, Ok(params()), TriggerKind::Start, ID, Some("k")).unwrap();
    assert_eq!(r.verb.method(), "PUT");
    assert_eq!(r.url, "https://example.com/hook");
    assert_eq!(
        r.handle,
        Some("https://arc.example/task/01901234-5678-7abc-8def-0123456789ab".to_string())
    );
    let headers: Vec<(&str, &str)> =
        r.headers.iter().map(|h| (h.0.as_str(), h.1.as_str())).collect();
    assert_eq!(
        headers,
        vec![
            ("X-Own", "1"),
            ("Idempotency-Key", "k"),
            ("X-Task-Id", "01901234-5678-7abc-8def-0123456789ab"),
            ("X-Task-Trigger", "start"),
        ]
    );
}

#[test]
fn requests_without_parameters_are_refused() {
    let ctx = ActionContext { host_address: String::new(), webhook_idempotency_timeout: 0 };
    let r = execute_with_enrichment(
        &ctx,
        Err("bad".to_string()),
        TriggerKind::End,
        ID,
        None,
        None,
    );
    assert_eq!(r.err(), Some("Failed to parse webhook params: bad".to_string()));
}

#[test]
fn batch_requests_have_no_callback() {
    let r = execute_batch_action(Ok(params()), Some("b"), "{}".to_string()).unwrap();
    assert_eq!(r.handle, None);
    assert!(matches!(&r.body, Some(WebhookBody::Object(m)) if m.len() == 1 && m[0].0 == "arcrun"));
    assert_eq!(r.headers.last().unwrap().1, "batch_complete");
}

#[test]
fn enrichment_replaces_only_its_own_member() {
    let body = WebhookBody::Object(vec![
        ("a".to_string(), "1".to_string()),
        ("arcrun".to_string(), "2".to_string()),
    ]);
    match merge_enrichment(Some(body), Some("3".to_string())) {
        Some(WebhookBody::Object(m)) => {
            assert_eq!(
                m,
                vec![
                    ("a".to_string(), "1".to_string()),
                    ("arcrun".to_string(), "3".to_string()),
                ]
            );
        }
        _ => panic!("an object stays an object"),
    }
    match merge_enrichment(Some(WebhookBody::Other("[1]".to_string())), Some("3".to_string())) {
        Some(WebhookBody::Object(m)) => {
            assert_eq!(m.len(), 2);
            assert_eq!(m[1], ("body".to_string(), "[1]".to_string()));
        }
        _ => panic!("any other body is kept under a member"),
    }
    assert!(merge_enrichment(None, None).is_none());
}

#[test]
fn responses_are_judged_by_their_status() {
    let answer = |code: u16, status: &str| {
        send_webhook_outcome(&SendOutcome::Response { code, status: status.to_string() })
    };
    assert!(answer(204, "204 No Content").is_ok());
    assert_eq!(
        answer(302, "302 Found"),
        Err("Webhook returned redirect status 302 Found — redirects are disabled".to_string())
    );
    assert_eq!(
        answer(500, "500 Internal Server Error"),
        Err("Request failed with status: 500 Internal Server Error".to_string())
    );
    assert_eq!(
        send_webhook_outcome(&SendOutcome::Unsent("timeout".to_string())),
        Err("Failed to send request: timeout".to_string())
    );
}

#[test]
fn only_ascii_capitals_are_made_small() {
    assert_eq!(arcrun::text::ascii_lowercase("AbYZ[@ 9-\u{c9}\u{e9}"), "abyz[@ 9-\u{c9}\u{e9}");
    assert_eq!(arcrun::text::ascii_lowercase(""), "");
}
