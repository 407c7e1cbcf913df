//! Query parameters of list endpoints.

use crate::config::Config;
use crate::models::{opt_text, StatusKind, WebhookExecutionStatus};
use crate::text::{
    ascii_lowercase, ascii_lowered, escape_like_pattern, like_escaped, same_text, trim, trimmed,
};
use vstd::prelude::*;

verus! {

/// A page to query.
#[derive(Clone, Copy, Debug, PartialEq, Eq, Structural)]
pub struct Pagination {
    /// Rows to skip.
    pub offset: i64,
    /// Rows to return at most.
    pub limit: i64,
}

/// A page as asked for.
#[derive(Clone, Copy, Debug, PartialEq, Eq, Structural)]
pub struct PaginationDto {
    /// Page number, from zero.
    pub page: Option<i64>,
    /// Number of items per page.
    pub page_size: Option<i64>,
}

/// The page size that a request gets: what it asked for, at most the maximum, and
/// the default where it asked for nothing or for nothing positive.
pub open spec fn effective_size(asked: Option<i64>, default: int, max: int) -> int {
    let wanted = match asked {
        Some(s) => s as int,
        None => default,
    };
    let capped = if wanted > max {
        max
    } else {
        wanted
    };
    if capped <= 0 {
        default
    } else {
        capped
    }
}

/// The page number that a request gets: never negative, and small enough that the
/// offset fits.
pub open spec fn effective_page(asked: Option<i64>, size: int) -> int {
    let wanted = match asked {
        Some(p) if p > 0 => p as int,
        _ => 0,
    };
    if size > 0 && wanted > i64::MAX as int / size {
        i64::MAX as int / size
    } else {
        wanted
    }
}

/// A number brought into the 64-bit range.
pub open spec fn saturated(x: int) -> int {
    if x > i64::MAX {
        i64::MAX as int
    } else if x < i64::MIN {
        i64::MIN as int
    } else {
        x
    }
}

impl PaginationDto {
    /// Resolves raw query parameters into an offset and a limit, within the
    /// configured limits.
    pub fn resolve(self, config: &Config) -> (r: Pagination)
        ensures
            ({
                let size = effective_size(
                    self.page_size,
                    config.pagination.default_per_page as int,
                    config.pagination.max_per_page as int,
                );
                &&& r.limit == size
                &&& r.offset == saturated(effective_page(self.page, size) * size)
            }),
    {
        let mut page_size: i64 = match self.page_size {
            Some(s) => s,
            None => config.pagination.default_per_page,
        };
        if page_size > config.pagination.max_per_page {
            page_size = config.pagination.max_per_page;
        }
        if page_size <= 0 {
            page_size = config.pagination.default_per_page;
        }
        let mut page: i64 = match self.page {
            Some(p) if p > 0 => p,
            _ => 0,
        };
        if page_size > 0 && page > 0 {
            let max_page: i64 = i64::MAX / page_size;
            if page > max_page {
                page = max_page;
            }
        }
        proof {
            lemma_product_range(page as int, page_size as int);
            if page_size > 0 {
                assert(i64::MAX as int / page_size as int >= 0) by (nonlinear_arith)
                    requires
                        page_size > 0,
                ;
            }
        }
        let product: i128 = page as i128 * page_size as i128;
        let offset: i64 = if product > i64::MAX as i128 {
            i64::MAX
        } else if product < i64::MIN as i128 {
            i64::MIN
        } else {
            product as i64
        };
        Pagination { offset, limit: page_size }
    }
}

/// A product of two 64-bit numbers fits in 128 bits.
proof fn lemma_product_range(a: int, b: int)
    requires
        i64::MIN <= a <= i64::MAX,
        i64::MIN <= b <= i64::MAX,
    ensures
        i128::MIN <= a * b <= i128::MAX,
{
    assert(-0x4000_0000_0000_0000_0000_0000_0000_0000int <= a * b
        <= 0x4000_0000_0000_0000_0000_0000_0000_0000int) by (nonlinear_arith)
        requires
            -0x8000_0000_0000_0000int <= a <= 0x7fff_ffff_ffff_ffffint,
            -0x8000_0000_0000_0000int <= b <= 0x7fff_ffff_ffff_ffffint,
    ;
}

/// With a positive default no larger than the maximum, every request gets a
/// positive limit within the maximum, and the exact offset of its page: nothing is
/// saturated.
pub proof fn pages_stay_in_range(page: Option<i64>, page_size: Option<i64>, default: int, max: int)
    requires
        0 < default <= max <= i64::MAX,
    ensures
        ({
            let size = effective_size(page_size, default, max);
            let number = effective_page(page, size);
            &&& 0 < size <= max
            &&& number >= 0
            &&& saturated(number * size) == number * size
            &&& number * size >= 0
        }),
{
    let size = effective_size(page_size, default, max);
    let number = effective_page(page, size);
    let top = i64::MAX as int;
    assert(number >= 0) by {
        assert(top / size >= 0) by (nonlinear_arith)
            requires
                size > 0,
                top > 0,
        ;
    }
    assert(number <= top / size);
    assert(0 <= number * size <= top) by (nonlinear_arith)
        requires
            size > 0,
            0 <= number <= top / size,
            top > 0,
    ;
}

/// Filter parameters of the delivery list.
#[derive(Debug)]
pub struct WebhookDeliveryFilterDto {
    /// Delivery status, in any case.
    pub status: Option<String>,
}

/// The status that a text names.
pub open spec fn status_named(s: Seq<char>) -> Option<WebhookExecutionStatus> {
    if s == "pending"@ {
        Some(WebhookExecutionStatus::Pending)
    } else if s == "success"@ {
        Some(WebhookExecutionStatus::Success)
    } else if s == "failure"@ {
        Some(WebhookExecutionStatus::Failure)
    } else if s == "exhausted"@ {
        Some(WebhookExecutionStatus::Exhausted)
    } else {
        None
    }
}

/// The message for an unknown status.
pub open spec fn bad_status_message(s: Seq<char>) -> Seq<char> {
    "invalid status '"@ + s + "': expected one of pending, success, failure, exhausted"@
}

impl WebhookDeliveryFilterDto {
    /// Parses the optional status, in any case and ignoring surrounding white
    /// space. `Ok(None)` where no filter is given, an error on an unknown value.
    pub fn resolve_status(&self) -> (r: Result<Option<WebhookExecutionStatus>, String>)
        ensures
            match self.status {
                None => r == Ok::<Option<WebhookExecutionStatus>, String>(None),
                Some(s) => match status_named(ascii_lowered(trimmed(s@))) {
                    Some(k) => r == Ok::<Option<WebhookExecutionStatus>, String>(Some(k)),
                    None => r matches Err(e) && e@ == bad_status_message(
                        ascii_lowered(trimmed(s@)),
                    ),
                },
            },
    {
        let lower: String = match &self.status {
            None => {
                return Ok(None);
            },
            Some(s) => ascii_lowercase(trim(s.as_str())),
        };
        proof {
            reveal_strlit("pending");
            reveal_strlit("success");
            reveal_strlit("failure");
            reveal_strlit("exhausted");
        }
        if same_text(lower.as_str(), "pending") {
            Ok(Some(WebhookExecutionStatus::Pending))
        } else if same_text(lower.as_str(), "success") {
            Ok(Some(WebhookExecutionStatus::Success))
        } else if same_text(lower.as_str(), "failure") {
            Ok(Some(WebhookExecutionStatus::Failure))
        } else if same_text(lower.as_str(), "exhausted") {
            Ok(Some(WebhookExecutionStatus::Exhausted))
        } else {
            Err(
                "invalid status '".to_string().concat(lower.as_str()).concat(
                    "': expected one of pending, success, failure, exhausted",
                ),
            )
        }
    }
}

/// Filter parameters of the task list, all optional.
#[derive(Debug)]
pub struct FilterDto {
    /// Task name, matched exactly.
    pub name: Option<String>,
    /// Task kind, matched exactly.
    pub kind: Option<String>,
    /// Task status.
    pub status: Option<StatusKind>,
    /// Timeout value.
    pub timeout: Option<i32>,
    /// JSON that the task's metadata has to contain.
    pub metadata: Option<String>,
    /// Owning batch.
    pub batch_id: Option<u128>,
}

/// A filter ready to be matched: texts are escaped as `LIKE` patterns, empty where
/// nothing is asked for, and the metadata is valid JSON.
#[derive(Debug)]
pub struct Filter {
    /// Escaped name.
    pub name: String,
    /// Escaped kind.
    pub kind: String,
    /// JSON that the metadata has to contain.
    pub metadata: Option<String>,
    /// Task status.
    pub status: Option<StatusKind>,
    /// Timeout value.
    pub timeout: Option<i32>,
    /// Owning batch.
    pub batch_id: Option<u128>,
}

/// What `serde_json::from_str` makes of a text: the value written out again, or
/// the parser's message.
pub uninterp spec fn json_parse(s: Seq<char>) -> Result<Seq<char>, Seq<char>>;

/// The view of the outcome of parsing JSON.
pub open spec fn json_view(r: Result<String, String>) -> Result<Seq<char>, Seq<char>> {
    match r {
        Ok(v) => Ok(v@),
        Err(e) => Err(e@),
    }
}

/// Parses JSON with `serde_json::from_str`, and writes the value out again. The
/// result is a function of the text alone; the grammar of JSON is left to that
/// crate.
#[verifier::external_body]
pub(crate) fn parse_json(s: &str) -> (r: Result<String, String>)
    ensures
        json_view(r) == json_parse(s@),
{
    match serde_json::from_str::<serde_json::Value>(s) {
        Ok(v) => Ok(v.to_string()),
        Err(e) => Err(e.to_string()),
    }
}

/// The escaped form of an optional text.
pub open spec fn escaped_or_empty(o: Option<String>) -> Seq<char> {
    match o {
        Some(s) => like_escaped(s@),
        None => Seq::empty(),
    }
}

/// `f` is the filter of `dto`, whose metadata is `metadata` once parsed.
pub open spec fn filter_of(dto: FilterDto, metadata: Option<Seq<char>>, f: Filter) -> bool {
    &&& f.name@ == escaped_or_empty(dto.name)
    &&& f.kind@ == escaped_or_empty(dto.kind)
    &&& opt_text(f.metadata) == metadata
    &&& f.status == dto.status
    &&& f.timeout == dto.timeout
    &&& f.batch_id == dto.batch_id
}

/// The message for a metadata filter that is not valid JSON.
pub open spec fn bad_metadata_message(e: Seq<char>) -> Seq<char> {
    "invalid `metadata` filter: expected valid JSON ("@ + e + ")"@
}

/// Escapes an optional text.
fn escape_or_empty(o: Option<String>) -> (r: String)
    ensures
        r@ == escaped_or_empty(o),
{
    match o {
        Some(s) => escape_like_pattern(s.as_str()),
        None => {
            let r: String = String::new();
            assert(r@ =~= Seq::empty());
            r
        },
    }
}

impl FilterDto {
    /// Resolves the parameters, given the outcome of parsing the metadata filter,
    /// if there is one. A metadata filter that did not parse is an error.
    pub fn resolve_with(self, metadata: Option<Result<String, String>>) -> (r: Result<
        Filter,
        String,
    >)
        ensures
            match metadata {
                Some(Err(e)) => r matches Err(m) && m@ == bad_metadata_message(e@),
                Some(Ok(v)) => r matches Ok(f) && filter_of(self, Some(v@), f),
                None => r matches Ok(f) && filter_of(self, None, f),
            },
    {
        let metadata: Option<String> = match metadata {
            None => None,
            Some(Ok(v)) => Some(v),
            Some(Err(e)) => {
                return Err(
                    "invalid `metadata` filter: expected valid JSON (".to_string().concat(
                        e.as_str(),
                    ).concat(")"),
                );
            },
        };
        Ok(
            Filter {
                name: escape_or_empty(self.name),
                kind: escape_or_empty(self.kind),
                metadata,
                status: self.status,
                timeout: self.timeout,
                batch_id: self.batch_id,
            },
        )
    }

    /// Resolves raw query parameters. A malformed metadata filter is refused, not
    /// dropped.
    pub fn resolve(self) -> (r: Result<Filter, String>)
        ensures
            match self.metadata {
                None => r matches Ok(f) && filter_of(self, None, f),
                Some(m) => match json_parse(m@) {
                    Ok(v) => r matches Ok(f) && filter_of(self, Some(v), f),
                    Err(e) => r matches Err(x) && x@ == bad_metadata_message(e),
                },
            },
    {
        let parsed: Option<Result<String, String>> = match &self.metadata {
            None => None,
            Some(m) => Some(parse_json(m.as_str())),
        };
        self.resolve_with(parsed)
    }
}

} // verus!
