use arcrun::action::{HttpVerb, WebhookParams};
use arcrun::config::SecurityConfig;
use arcrun::validation::ssrf::{
    check_resolved_ips, validate_webhook_url, validate_webhook_url_with_config, IpAddr,
};
use arcrun::validation::validate_action_params;

fn strict_security_config() -> SecurityConfig {
    SecurityConfig { skip_ssrf_validation: false, ..SecurityConfig::default() }
}

fn validate_url_strict(url: &str) -> Result<(), String> {
    validate_webhook_url_with_config(url, &strict_security_config())
}

#[test]
fn test_ssrf_localhost_blocked() {
    assert!(validate_url_strict("http://localhost/api").is_err());
    assert!(validate_url_strict("http://localhost:8080/api").is_err());
    assert!(validate_url_strict("https://localhost/api").is_err());
}

#[test]
fn test_ssrf_loopback_ip_blocked() {
    assert!(validate_url_strict("http://127.0.0.1/api").is_err());
    assert!(validate_url_strict("http://127.0.0.1:8080/api").is_err());
    assert!(validate_url_strict("http://127.1.2.3/api").is_err());
}

#[test]
fn test_ssrf_private_ip_10_blocked() {
    assert!(validate_url_strict("http://10.0.0.1/api").is_err());
    assert!(validate_url_strict("http://10.255.255.255/api").is_err());
}

#[test]
fn test_ssrf_private_ip_172_blocked() {
    assert!(validate_url_strict("http://172.16.0.1/api").is_err());
    assert!(validate_url_strict("http://172.31.255.255/api").is_err());
    assert!(validate_url_strict("http://172.15.0.1/api").is_ok());
    assert!(validate_url_strict("http://172.32.0.1/api").is_ok());
}

#[test]
fn test_ssrf_private_ip_192_168_blocked() {
    assert!(validate_url_strict("http://192.168.0.1/api").is_err());
    assert!(validate_url_strict("http://192.168.255.255/api").is_err());
}

#[test]
fn test_ssrf_cloud_metadata_blocked() {
    assert!(validate_url_strict("http://169.254.169.254/latest/meta-data/").is_err());
    assert!(validate_url_strict("http://metadata.google.internal/computeMetadata/v1/").is_err());
}

#[test]
fn test_ssrf_file_scheme_blocked() {
    assert!(validate_url_strict("file:///etc/passwd").is_err());
}

#[test]
fn test_ssrf_internal_domains_blocked() {
    assert!(validate_url_strict("http://service.local/api").is_err());
    assert!(validate_url_strict("http://app.internal/api").is_err());
    assert!(validate_url_strict("http://host.localdomain/api").is_err());
}

#[test]
fn test_valid_external_urls() {
    assert!(validate_url_strict("https://example.com/webhook").is_ok());
    assert!(validate_url_strict("https://api.github.com/repos").is_ok());
    assert!(validate_url_strict("http://httpbin.org/post").is_ok());
    assert!(validate_url_strict("https://8.8.8.8/api").is_ok());
}

#[test]
fn test_skip_ssrf_validation_allows_localhost() {
    let config = SecurityConfig { skip_ssrf_validation: true, ..SecurityConfig::default() };
    assert!(validate_webhook_url_with_config("http://localhost/api", &config).is_ok());
    assert!(validate_webhook_url_with_config("http://127.0.0.1/api", &config).is_ok());
    assert!(validate_webhook_url_with_config("not-a-url", &config).is_err());
}

#[test]
fn test_ssrf_ipv6_literals_blocked() {
    assert!(validate_url_strict("http://[::1]:8085/").is_err(), "IPv6 loopback must be blocked");
    assert!(
        validate_url_strict("http://[fd00::1]/").is_err(),
        "IPv6 ULA (fc00::/7) must be blocked"
    );
    assert!(
        validate_url_strict("http://[fe80::1]/").is_err(),
        "IPv6 link-local (fe80::/10) must be blocked"
    );
    assert!(validate_url_strict("http://[::]/").is_err(), "IPv6 unspecified must be blocked");
}

#[test]
fn test_ssrf_ipv4_mapped_ipv6_blocked() {
    assert!(
        validate_url_strict("http://[::ffff:10.0.0.1]/").is_err(),
        "IPv4-mapped private address must be blocked"
    );
    assert!(
        validate_url_strict("http://[::ffff:127.0.0.1]/").is_err(),
        "IPv4-mapped loopback must be blocked"
    );
    assert!(
        validate_url_strict("http://[::ffff:169.254.169.254]/").is_err(),
        "IPv4-mapped cloud-metadata address must be blocked"
    );
}

#[test]
fn test_ssrf_public_ipv6_allowed() {
    assert!(
        validate_url_strict("https://[2606:4700:4700::1111]/").is_ok(),
        "public IPv6 must be allowed"
    );
}

#[test]
fn test_check_resolved_ips_filter() {
    assert!(check_resolved_ips(&[IpAddr::V4([8, 8, 8, 8]), IpAddr::V4([1, 1, 1, 1])]).is_ok());
    let internal = IpAddr::V4([169, 254, 169, 254]);
    assert_eq!(
        check_resolved_ips(&[IpAddr::V4([8, 8, 8, 8]), internal]),
        Err(internal),
        "a mix of public + internal must be rejected on the internal IP"
    );
    let v6_loop = IpAddr::V6([0, 0, 0, 0, 0, 0, 0, 1]);
    assert_eq!(check_resolved_ips(&[v6_loop]), Err(v6_loop));
    // ::ffff:10.0.0.5
    let mapped = IpAddr::V6([0, 0, 0, 0, 0, 0xffff, 0x0a00, 0x0005]);
    assert!(check_resolved_ips(&[mapped]).is_err());
    assert!(check_resolved_ips(&[]).is_ok());
}

#[test]
fn test_custom_blocked_hostnames() {
    let config = SecurityConfig {
        skip_ssrf_validation: false,
        blocked_hostnames: vec!["myblocked.com".to_string()],
        blocked_hostname_suffixes: vec![".blocked".to_string()],
    };
    assert!(validate_webhook_url_with_config("http://myblocked.com/api", &config).is_err());
    assert!(validate_webhook_url_with_config("http://service.blocked/api", &config).is_err());
    assert!(validate_webhook_url_with_config("http://localhost/api", &config).is_ok());
    assert!(validate_webhook_url_with_config("http://10.0.0.1/api", &config).is_err());
}

#[test]
fn refusals_say_what_is_wrong() {
    assert_eq!(
        validate_url_strict("http://LOCALHOST/x"),
        Err("URL host 'localhost' is not allowed (internal/reserved)".to_string())
    );
    assert_eq!(
        validate_url_strict("http://a.localhost/x"),
        Err("URL host 'a.localhost' is not allowed (internal/reserved)".to_string())
    );
    assert_eq!(
        validate_url_strict("http://10.0.0.1/x"),
        Err("URL points to internal IP address '10.0.0.1' which is not allowed".to_string())
    );
    assert_eq!(
        validate_url_strict("http://db.local/x"),
        Err("URL host 'db.local' appears to be internal".to_string())
    );
}

#[test]
fn default_settings_apply_where_none_are_given() {
    assert!(validate_webhook_url("http://localhost/", None).is_err());
    let open = SecurityConfig { skip_ssrf_validation: true, ..SecurityConfig::default() };
    assert!(validate_webhook_url("http://localhost/", Some(&open)).is_ok());
}

#[test]
fn blocked_names_are_compared_in_lower_case() {
    let config = SecurityConfig {
        skip_ssrf_validation: false,
        blocked_hostnames: vec!["B\u{c4}D.example".to_string(), "Shop.Example".to_string()],
        blocked_hostname_suffixes: Vec::new(),
    };
    assert!(validate_webhook_url_with_config("http://SHOP.example/", &config).is_err());
    assert!(validate_webhook_url_with_config("http://eu.shop.example/", &config).is_err());
    assert!(validate_webhook_url_with_config("http://workshop.example/", &config).is_ok());
}

#[test]
fn action_parameters_are_refused_with_their_reason() {
    let config = strict_security_config();
    let bad: Result<WebhookParams, String> = Err("missing field `url`".to_string());
    assert_eq!(
        validate_action_params(&bad, &config),
        Err("Invalid webhook params: missing field `url`".to_string())
    );
    let params = WebhookParams {
        url: "https://example.com/hook".to_string(),
        verb: HttpVerb::Post,
        body: None,
        headers: None,
    };
    assert!(validate_action_params(&Ok(params), &config).is_ok());
}
