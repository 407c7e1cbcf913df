//! Webhook targets: only public HTTP(S) hosts are accepted.

use crate::config::SecurityConfig;
use crate::models::texts;
use crate::text::{ends_in, has_suffix, lower_case, lowercase, same_text};
use vstd::prelude::*;

verus! {

// ---------------------------------------------------------------------------
// Addresses
// ---------------------------------------------------------------------------

/// An IP address.
#[derive(Clone, Copy, Debug, PartialEq, Eq)]
pub enum IpAddr {
    /// The four octets of an IPv4 address.
    V4([u8; 4]),
    /// The eight segments of an IPv6 address.
    V6([u16; 8]),
}

/// The IPv4 ranges that are private, loopback, link-local or reserved.
pub open spec fn internal_v4(a: u8, b: u8) -> bool {
    ||| a == 10
    ||| a == 172 && 16 <= b <= 31
    ||| a == 192 && b == 168
    ||| a == 127
    ||| a == 169 && b == 254
    ||| a == 0
}

/// Whether the segments hold an IPv4 address mapped into IPv6.
pub open spec fn v4_mapped(s: Seq<u16>) -> bool {
    s[0] == 0 && s[1] == 0 && s[2] == 0 && s[3] == 0 && s[4] == 0 && s[5] == 0xffff
}

/// Whether an address is private, loopback, link-local, unique local,
/// unspecified or reserved. A mapped IPv4 address is judged as IPv4.
pub open spec fn internal(ip: IpAddr) -> bool {
    match ip {
        IpAddr::V4(o) => internal_v4(o@[0], o@[1]),
        IpAddr::V6(s) => if v4_mapped(s@) {
            internal_v4((s@[6] / 256) as u8, (s@[6] % 256) as u8)
        } else {
            ||| 0xfe80 <= s@[0] <= 0xfebf
            ||| 0xfc00 <= s@[0] <= 0xfdff
            ||| s@[0] == 0 && s@[1] == 0 && s@[2] == 0 && s@[3] == 0 && s@[4] == 0 && s@[5] == 0
                && s@[6] == 0 && (s@[7] == 0 || s@[7] == 1)
        },
    }
}

/// Whether an IPv4 address is in a private, internal or reserved range.
pub fn is_internal_ipv4(octets: &[u8; 4]) -> (r: bool)
    ensures
        r == internal_v4(octets@[0], octets@[1]),
{
    let a: u8 = octets[0];
    let b: u8 = octets[1];
    // 10.0.0.0/8, 172.16.0.0/12 and 192.168.0.0/16 are private, 127.0.0.0/8 is
    // loopback, 169.254.0.0/16 is link-local, 0.0.0.0/8 is reserved.
    a == 10 || (a == 172 && 16 <= b && b <= 31) || (a == 192 && b == 168) || a == 127 || (a == 169
        && b == 254) || a == 0
}

/// Whether an IP address is in a private or internal range. An IPv4 address
/// mapped into IPv6 is judged as IPv4.
pub fn is_internal_ip(ip: &IpAddr) -> (r: bool)
    ensures
        r == internal(*ip),
{
    match ip {
        IpAddr::V4(o) => is_internal_ipv4(o),
        IpAddr::V6(s) => {
            let zeros: bool = s[0] == 0 && s[1] == 0 && s[2] == 0 && s[3] == 0 && s[4] == 0;
            if zeros && s[5] == 0xffff {
                let octets: [u8; 4] = [
                    (s[6] / 256) as u8,
                    (s[6] % 256) as u8,
                    (s[7] / 256) as u8,
                    (s[7] % 256) as u8,
                ];
                return is_internal_ipv4(&octets);
            }
            let s0: u16 = s[0];
            proof {
                assert((s0 & 0xffc0) == 0xfe80 <==> 0xfe80 <= s0 <= 0xfebf) by (bit_vector);
                assert((s0 & 0xfe00) == 0xfc00 <==> 0xfc00 <= s0 <= 0xfdff) by (bit_vector);
            }
            let link_local: bool = (s0 & 0xffc0) == 0xfe80;
            let unique_local: bool = (s0 & 0xfe00) == 0xfc00;
            let low: bool = zeros && s[5] == 0 && s[6] == 0;
            link_local || unique_local || (low && (s[7] == 0 || s[7] == 1))
        },
    }
}

/// Accepts the addresses that a host name resolved to, unless one of them is
/// internal: then answers the first such address.
pub fn check_resolved_ips(ips: &[IpAddr]) -> (r: Result<(), IpAddr>)
    ensures
        r is Ok <==> forall|i: int| 0 <= i < ips@.len() ==> !internal(#[trigger] ips@[i]),
        r matches Err(ip) ==> exists|i: int|
            0 <= i < ips@.len() && #[trigger] ips@[i] == ip && internal(ip) && forall|k: int|
                0 <= k < i ==> !internal(#[trigger] ips@[k]),
{
    let mut i: usize = 0;
    while i < ips.len()
        invariant
            i <= ips.len(),
            forall|k: int| 0 <= k < i ==> !internal(#[trigger] ips@[k]),
        decreases ips.len() - i,
    {
        if is_internal_ip(&ips[i]) {
            assert(internal(ips@[i as int]));
            return Err(ips[i]);
        }
        i += 1;
    }
    Ok(())
}

// ---------------------------------------------------------------------------
// URLs
// ---------------------------------------------------------------------------

/// What kind of host a URL names.
#[derive(Debug)]
pub enum HostKind {
    /// No address: a domain name, or no host at all.
    Name,
    /// An address, with its usual text form.
    Address {
        /// The address.
        ip: IpAddr,
        /// Its text form.
        text: String,
    },
}

/// The parts of a URL that the checks look at.
#[derive(Debug)]
pub struct ParsedUrl {
    /// The scheme, in lower case.
    pub scheme: String,
    /// The host, as it stands in the URL.
    pub host: Option<String>,
    /// What the host is.
    pub kind: HostKind,
}

/// The kind of a host, viewed mathematically.
pub enum HostKindView {
    Name,
    Address { ip: IpAddr, text: Seq<char> },
}

/// A parsed URL, viewed mathematically.
pub struct UrlView {
    pub scheme: Seq<char>,
    pub host: Option<Seq<char>>,
    pub kind: HostKindView,
}

impl View for HostKind {
    type V = HostKindView;

    open spec fn view(&self) -> HostKindView {
        match self {
            HostKind::Name => HostKindView::Name,
            HostKind::Address { ip, text } => HostKindView::Address { ip: *ip, text: text@ },
        }
    }
}

impl View for ParsedUrl {
    type V = UrlView;

    open spec fn view(&self) -> UrlView {
        UrlView {
            scheme: self.scheme@,
            host: crate::models::opt_text(self.host),
            kind: self.kind@,
        }
    }
}

/// The view of the outcome of parsing a URL.
pub open spec fn parse_view(r: Result<ParsedUrl, String>) -> Result<UrlView, Seq<char>> {
    match r {
        Ok(u) => Ok(u@),
        Err(e) => Err(e@),
    }
}

/// What `url::Url::parse` makes of a text: the scheme, the host and its kind, or
/// the parser's message.
pub uninterp spec fn url_parse(s: Seq<char>) -> Result<UrlView, Seq<char>>;

/// Parses a URL with `url::Url::parse`, and takes its `scheme`, `host_str` and
/// `host` apart. The result is a function of the text alone; what the grammar of
/// URLs makes of a given text is left to that crate.
#[verifier::external_body]
pub(crate) fn parse_url(s: &str) -> (r: Result<ParsedUrl, String>)
    ensures
        parse_view(r) == url_parse(s@),
{
    let u = url::Url::parse(s).map_err(|e| e.to_string())?;
    let kind = match u.host() {
        Some(url::Host::Ipv4(ip)) => HostKind::Address { ip: IpAddr::V4(ip.octets()), text: ip.to_string() },
        Some(url::Host::Ipv6(ip)) => HostKind::Address { ip: IpAddr::V6(ip.segments()), text: ip.to_string() },
        Some(url::Host::Domain(_)) => HostKind::Name,
        None => HostKind::Name,
    };
    Ok(ParsedUrl { scheme: u.scheme().to_string(), host: u.host_str().map(str::to_string), kind })
}

/// Whether `host` is the blocked name or one of its subdomains.
pub open spec fn name_blocked(host: Seq<char>, blocked: Seq<char>) -> bool {
    host == blocked || ends_in(host, "."@ + blocked)
}

/// Why a host is refused, if it is. The names are compared in lower case.
pub open spec fn host_refusal(
    host: Seq<char>,
    host_lower: Seq<char>,
    kind: HostKindView,
    blocked_lower: Seq<Seq<char>>,
    suffixes: Seq<Seq<char>>,
) -> Option<Seq<char>> {
    if exists|i: int| 0 <= i < blocked_lower.len() && name_blocked(host_lower, #[trigger] blocked_lower[i]) {
        Some("URL host '"@ + host + "' is not allowed (internal/reserved)"@)
    } else if kind is Address && internal(kind->ip) {
        Some("URL points to internal IP address '"@ + kind->text + "' which is not allowed"@)
    } else if exists|i: int| 0 <= i < suffixes.len() && ends_in(host_lower, #[trigger] suffixes[i]) {
        Some("URL host '"@ + host + "' appears to be internal"@)
    } else {
        None
    }
}

/// Refuses a host that is blocked by name, an internal address, or blocked by
/// its ending, in this order.
pub fn check_host(
    host: &str,
    host_lower: &str,
    kind: &HostKind,
    blocked_lower: &Vec<String>,
    suffixes: &Vec<String>,
) -> (r: Result<(), String>)
    ensures
        match r {
            Ok(_) => host_refusal(
                host@,
                host_lower@,
                kind@,
                texts(blocked_lower@),
                texts(suffixes@),
            ) is None,
            Err(e) => host_refusal(
                host@,
                host_lower@,
                kind@,
                texts(blocked_lower@),
                texts(suffixes@),
            ) == Some(e@),
        },
{
    let ghost bs = texts(blocked_lower@);
    let ghost ss = texts(suffixes@);
    let mut i: usize = 0;
    while i < blocked_lower.len()
        invariant
            i <= blocked_lower.len(),
            bs == texts(blocked_lower@),
            forall|k: int| 0 <= k < i ==> !name_blocked(host_lower@, #[trigger] bs[k]),
        decreases blocked_lower.len() - i,
    {
        let dotted: String = ".".to_string().concat(blocked_lower[i].as_str());
        assert(bs[i as int] == blocked_lower@[i as int]@);
        if same_text(host_lower, blocked_lower[i].as_str()) || has_suffix(
            host_lower,
            dotted.as_str(),
        ) {
            assert(name_blocked(host_lower@, bs[i as int]));
            return Err(
                "URL host '".to_string().concat(host).concat(
                    "' is not allowed (internal/reserved)",
                ),
            );
        }
        i += 1;
    }
    if let HostKind::Address { ip, text } = kind {
        if is_internal_ip(ip) {
            return Err(
                "URL points to internal IP address '".to_string().concat(text.as_str()).concat(
                    "' which is not allowed",
                ),
            );
        }
    }
    let mut i: usize = 0;
    while i < suffixes.len()
        invariant
            i <= suffixes.len(),
            ss == texts(suffixes@),
            bs == texts(blocked_lower@),
            forall|k: int| 0 <= k < bs.len() ==> !name_blocked(host_lower@, #[trigger] bs[k]),
            !(kind@ is Address && internal(kind@->ip)),
            forall|k: int| 0 <= k < i ==> !ends_in(host_lower@, #[trigger] ss[k]),
        decreases suffixes.len() - i,
    {
        assert(ss[i as int] == suffixes@[i as int]@);
        if has_suffix(host_lower, suffixes[i].as_str()) {
            assert(ends_in(host_lower@, ss[i as int]));
            return Err("URL host '".to_string().concat(host).concat("' appears to be internal"));
        }
        i += 1;
    }
    Ok(())
}

/// Why a URL is refused, if it is.
pub open spec fn url_refusal(
    parsed: Result<UrlView, Seq<char>>,
    skip: bool,
    blocked: Seq<Seq<char>>,
    suffixes: Seq<Seq<char>>,
) -> Option<Seq<char>> {
    match parsed {
        Err(e) => Some("Invalid URL format: "@ + e),
        Ok(u) => if skip {
            None
        } else if u.scheme != "http"@ && u.scheme != "https"@ {
            Some("URL scheme '"@ + u.scheme + "' not allowed, must be http or https"@)
        } else {
            match u.host {
                None => Some("URL must have a host"@),
                Some(host) => host_refusal(
                    host,
                    lower_case(host),
                    u.kind,
                    blocked.map_values(|b: Seq<char>| lower_case(b)),
                    suffixes,
                ),
            }
        },
    }
}

/// Whether the outcome of a check is `refusal`.
pub open spec fn verdict_is(r: Result<(), String>, refusal: Option<Seq<char>>) -> bool {
    match r {
        Ok(_) => refusal is None,
        Err(e) => refusal == Some(e@),
    }
}

/// Checks a parsed URL: it must be well formed; unless the check is switched
/// off, its scheme must be HTTP or HTTPS, and its host must be there and pass
/// [`check_host`].
pub fn check_parsed_url(parsed: &Result<ParsedUrl, String>, config: &SecurityConfig) -> (r: Result<
    (),
    String,
>)
    ensures
        verdict_is(
            r,
            url_refusal(
                parse_view(*parsed),
                config.skip_ssrf_validation,
                texts(config.blocked_hostnames@),
                texts(config.blocked_hostname_suffixes@),
            ),
        ),
{
    let u: &ParsedUrl = match parsed {
        Ok(u) => u,
        Err(e) => {
            return Err("Invalid URL format: ".to_string().concat(e.as_str()));
        },
    };
    if config.skip_ssrf_validation {
        return Ok(());
    }
    if !same_text(u.scheme.as_str(), "http") && !same_text(u.scheme.as_str(), "https") {
        return Err(
            "URL scheme '".to_string().concat(u.scheme.as_str()).concat(
                "' not allowed, must be http or https",
            ),
        );
    }
    let host: &String = match &u.host {
        Some(h) => h,
        None => {
            return Err("URL must have a host".to_string());
        },
    };
    let host_lower: String = lowercase(host.as_str());
    let ghost low = |b: Seq<char>| lower_case(b);
    let ghost names = texts(config.blocked_hostnames@);
    let mut blocked_lower: Vec<String> = Vec::new();
    let mut i: usize = 0;
    while i < config.blocked_hostnames.len()
        invariant
            i <= config.blocked_hostnames.len(),
            low == (|b: Seq<char>| lower_case(b)),
            names == texts(config.blocked_hostnames@),
            texts(blocked_lower@) =~= names.map_values(low).take(i as int),
        decreases config.blocked_hostnames.len() - i,
    {
        let b: String = lowercase(config.blocked_hostnames[i].as_str());
        proof {
            assert(names[i as int] == config.blocked_hostnames@[i as int]@);
            assert(names.map_values(low).take(i + 1) =~= names.map_values(low).take(
                i as int,
            ).push(b@));
            assert(texts(blocked_lower@.push(b)) =~= texts(blocked_lower@).push(b@));
        }
        blocked_lower.push(b);
        i += 1;
    }
    assert(names.map_values(low).take(i as int) =~= names.map_values(low));
    check_host(
        host.as_str(),
        host_lower.as_str(),
        &u.kind,
        &blocked_lower,
        &config.blocked_hostname_suffixes,
    )
}

/// Validates a webhook URL with an explicit configuration. Host names are only
/// checked against the blocked names here; the addresses that they resolve to
/// are checked when the webhook is delivered, by [`check_resolved_ips`].
pub fn validate_webhook_url_with_config(url_str: &str, config: &SecurityConfig) -> (r: Result<
    (),
    String,
>)
    ensures
        verdict_is(
            r,
            url_refusal(
                url_parse(url_str@),
                config.skip_ssrf_validation,
                texts(config.blocked_hostnames@),
                texts(config.blocked_hostname_suffixes@),
            ),
        ),
{
    let parsed: Result<ParsedUrl, String> = parse_url(url_str);
    check_parsed_url(&parsed, config)
}

/// Validates a webhook URL, with the given configuration or the default one.
pub fn validate_webhook_url(url_str: &str, config: Option<&SecurityConfig>) -> (r: Result<
    (),
    String,
>)
    ensures
        match config {
            Some(c) => verdict_is(
                r,
                url_refusal(
                    url_parse(url_str@),
                    c.skip_ssrf_validation,
                    texts(c.blocked_hostnames@),
                    texts(c.blocked_hostname_suffixes@),
                ),
            ),
            None => verdict_is(
                r,
                url_refusal(
                    url_parse(url_str@),
                    false,
                    seq!["localhost"@, "metadata.google.internal"@],
                    seq![".local"@, ".internal"@, ".localdomain"@],
                ),
            ),
        },
{
    match config {
        Some(c) => validate_webhook_url_with_config(url_str, c),
        None => {
            let c: SecurityConfig = SecurityConfig::default();
            validate_webhook_url_with_config(url_str, &c)
        },
    }
}

/// No URL that names an internal address passes the check, whatever names are
/// blocked, unless the check is switched off.
pub proof fn internal_addresses_are_refused(
    parsed: Result<UrlView, Seq<char>>,
    blocked: Seq<Seq<char>>,
    suffixes: Seq<Seq<char>>,
)
    requires
        parsed matches Ok(u) && u.kind is Address && internal(u.kind->ip),
    ensures
        url_refusal(parsed, false, blocked, suffixes) is Some,
{
}

} // verus!
