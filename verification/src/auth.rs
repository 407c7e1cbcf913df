//! Static bearer-token authentication.

use crate::handlers::{no_nudges, Body, BodyText, Nudges, Reply, ReplyView};
use crate::text::{
    ascii_lowercase, ascii_lowered, first_of, same_text, split_at_first, trim, trimmed,
};
use vstd::prelude::*;
use vstd::string::*;

verus! {

/// Equality of two byte strings, in a time that depends on their lengths only.
pub fn constant_time_eq(a: &[u8], b: &[u8]) -> (r: bool)
    ensures
        r == (a@ == b@),
{
    if a.len() != b.len() {
        return false;
    }
    let mut diff: u8 = 0;
    let mut i: usize = 0;
    while i < a.len()
        invariant
            i <= a.len(),
            a@.len() == b@.len(),
            diff == 0 <==> forall|k: int| 0 <= k < i ==> a@[k] == b@[k],
        decreases a.len() - i,
    {
        let x: u8 = a[i];
        let y: u8 = b[i];
        let d: u8 = diff;
        proof {
            assert((d | (x ^ y)) == 0 <==> d == 0 && x == y) by (bit_vector);
        }
        diff = d | (x ^ y);
        i += 1;
    }
    if diff == 0 {
        assert(a@ =~= b@);
    }
    diff == 0
}

/// `token` is the bearer token of an `Authorization` header: what follows the
/// first space, without surrounding white space, where what precedes it is
/// `bearer` in any case.
pub open spec fn bearer_token(header: Seq<char>, token: Seq<char>) -> bool {
    exists|i: int| #[trigger]
        first_of(header, ' ', i) && ascii_lowered(header.take(i)) == "bearer"@ && token == trimmed(
            header.skip(i + 1),
        )
}

/// Extracts the token from an `Authorization` header value: `Bearer <token>`, the
/// scheme in any case, the token without surrounding white space. `None` where the
/// header is not a bearer credential.
pub fn parse_bearer(header_value: &str) -> (r: Option<&str>)
    ensures
        match r {
            Some(t) => bearer_token(header_value@, t@),
            None => forall|t: Seq<char>| !bearer_token(header_value@, t),
        },
{
    match split_at_first(header_value, ' ') {
        None => {
            assert forall|t: Seq<char>| !bearer_token(header_value@, t) by {
                if bearer_token(header_value@, t) {
                    let i = choose|i: int| #[trigger] first_of(header_value@, ' ', i);
                    assert(header_value@[i] == ' ');
                }
            }
            None
        },
        Some((scheme, rest)) => {
            let ghost i = choose|i: int| #[trigger]
                first_of(header_value@, ' ', i) && scheme@ == header_value@.take(i) && rest@
                    == header_value@.skip(i + 1);
            let lower: String = ascii_lowercase(scheme);
            if same_text(lower.as_str(), "bearer") {
                Some(trim(rest))
            } else {
                assert forall|t: Seq<char>| !bearer_token(header_value@, t) by {
                    if bearer_token(header_value@, t) {
                        let j = choose|j: int| #[trigger]
                            first_of(header_value@, ' ', j) && ascii_lowered(header_value@.take(j))
                                == "bearer"@;
                        assert(i == j);
                    }
                }
                None
            }
        },
    }
}

/// Whether a path is always reachable without a token.
pub open spec fn exempt(path: Seq<char>) -> bool {
    path == "/health"@ || path == "/ready"@
}

/// Whether a request is let through.
pub open spec fn authorized(
    expected: Option<Seq<char>>,
    path: Seq<char>,
    header: Option<Seq<char>>,
) -> bool {
    match expected {
        None => true,
        Some(token) => exempt(path) || (header is Some && bearer_token(header->0, token)),
    }
}

/// The answer to a request that is not let through.
pub open spec fn unauthorized_answer() -> ReplyView {
    ReplyView {
        status: 401,
        body: BodyText::Refusal("Unauthorized: valid bearer token required"@, 401),
        nudges: no_nudges(),
    }
}

/// The answer to a request that is not let through, in the shape of every API error:
/// the message, and the status.
fn unauthorized_response() -> (r: Reply)
    ensures
        r@ == unauthorized_answer(),
{
    Reply {
        status: 401,
        body: Body::Refusal {
            error: "Unauthorized: valid bearer token required".to_string(),
            status: 401,
        },
        nudges: Nudges { start: false, delivery: false },
    }
}

/// Lets a request through, or answers it. Without a configured token every request
/// is let through; the liveness and readiness probes always are; any other request
/// needs the token in its `Authorization` header, and is answered 401 without it.
pub fn authorize(expected: Option<&str>, path: &str, header: Option<&str>) -> (r: Result<(), Reply>)
    ensures
        r is Ok <==> authorized(
            crate::action::opt_str(expected),
            path@,
            crate::action::opt_str(header),
        ),
        r is Err ==> (r->Err_0)@ == unauthorized_answer(),
{
    let expected: &str = match expected {
        Some(e) => e,
        None => {
            return Ok(());
        },
    };
    if same_text(path, "/health") || same_text(path, "/ready") {
        return Ok(());
    }
    let allowed: bool = match header {
        None => false,
        Some(h) => match parse_bearer(h) {
            None => false,
            Some(provided) => {
                proof {
                    lemma_one_token(h@, provided@);
                    lemma_bytes_determine(provided, expected);
                }
                constant_time_eq(provided.as_bytes(), expected.as_bytes())
            },
        },
    };
    if allowed {
        Ok(())
    } else {
        Err(unauthorized_response())
    }
}

/// A header carries at most one token.
proof fn lemma_one_token(header: Seq<char>, t: Seq<char>)
    requires
        bearer_token(header, t),
    ensures
        forall|u: Seq<char>| #[trigger] bearer_token(header, u) ==> u == t,
{
    assert forall|u: Seq<char>| #[trigger] bearer_token(header, u) implies u == t by {
        let i = choose|i: int| #[trigger]
            first_of(header, ' ', i) && ascii_lowered(header.take(i)) == "bearer"@ && t == trimmed(
                header.skip(i + 1),
            );
        let j = choose|j: int| #[trigger]
            first_of(header, ' ', j) && ascii_lowered(header.take(j)) == "bearer"@ && u == trimmed(
                header.skip(j + 1),
            );
        assert(i == j);
    }
}

/// Texts with the same bytes are the same.
proof fn lemma_bytes_determine(a: &str, b: &str)
    ensures
        a.spec_bytes() == b.spec_bytes() <==> a@ == b@,
{
    vstd::utf8::encode_utf8_decode_utf8(a@);
    vstd::utf8::encode_utf8_decode_utf8(b@);
}

} // verus!
