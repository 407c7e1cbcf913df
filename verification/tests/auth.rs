use arcrun::auth::{authorize, constant_time_eq, parse_bearer};
use arcrun::handlers::Body;

#[test]
fn constant_time_eq_matches_only_identical_slices() {
    assert!(constant_time_eq(b"secret-token", b"secret-token"));
    assert!(!constant_time_eq(b"secret-token", b"secret-tokeX"));
    assert!(!constant_time_eq(b"secret", b"secret-token"));
    assert!(!constant_time_eq(b"", b"x"));
    assert!(constant_time_eq(b"", b""));
}

#[test]
fn parse_bearer_extracts_token() {
    assert_eq!(parse_bearer("Bearer abc123"), Some("abc123"));
    assert_eq!(parse_bearer("bearer abc123"), Some("abc123"));
    assert_eq!(parse_bearer("Bearer   spaced  "), Some("spaced"));
}

#[test]
fn parse_bearer_rejects_non_bearer() {
    assert_eq!(parse_bearer("Basic abc123"), None);
    assert_eq!(parse_bearer("abc123"), None);
    assert_eq!(parse_bearer(""), None);
    assert_eq!(parse_bearer("Bearerabc"), None);
}

#[test]
fn requests_pass_without_a_configured_token() {
    assert!(authorize(None, "/task", None).is_ok());
    assert!(authorize(None, "/metrics", Some("Bearer anything")).is_ok());
}

#[test]
fn probes_are_exempt_and_everything_else_is_gated() {
    assert!(authorize(Some("t0ken"), "/health", None).is_ok());
    assert!(authorize(Some("t0ken"), "/ready", None).is_ok());
    assert!(authorize(Some("t0ken"), "/healthz", None).is_err());
    assert!(authorize(Some("t0ken"), "/metrics", None).is_err());
    assert!(authorize(Some("t0ken"), "/task", Some("Bearer other")).is_err());
    assert!(authorize(Some("t0ken"), "/task", Some("Basic t0ken")).is_err());
    assert!(authorize(Some("t0ken"), "/task", Some("Bearer t0ken")).is_ok());
    assert!(authorize(Some("t0ken"), "/task", Some("BEARER  t0ken ")).is_ok());
}

#[test]
fn a_refused_request_is_answered_with_the_error_and_the_status() {
    let reply = authorize(Some("t0ken"), "/task", Some("Bearer other")).unwrap_err();
    assert_eq!(reply.status, 401);
    match reply.body {
        Body::Refusal { error, status } => {
            assert_eq!(error, "Unauthorized: valid bearer token required");
            assert_eq!(status, 401);
        }
        _ => panic!("a refusal carries the status"),
    }
    assert!(!reply.nudges.start && !reply.nudges.delivery);
}
