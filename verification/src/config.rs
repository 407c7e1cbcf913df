//! Settings of the service.

use crate::models::texts;
use vstd::prelude::*;

verus! {

/// Which webhook targets are refused.
#[derive(Debug)]
pub struct SecurityConfig {
    /// Accept every well-formed URL. For development only.
    pub skip_ssrf_validation: bool,
    /// Host names that are refused, together with their subdomains.
    pub blocked_hostnames: Vec<String>,
    /// Host name endings that are refused.
    pub blocked_hostname_suffixes: Vec<String>,
}

impl Default for SecurityConfig {
    fn default() -> (r: Self)
        ensures
            !r.skip_ssrf_validation,
            texts(r.blocked_hostnames@) == seq!["localhost"@, "metadata.google.internal"@],
            texts(r.blocked_hostname_suffixes@) == seq![".local"@, ".internal"@, ".localdomain"@],
    {
        let mut blocked_hostnames: Vec<String> = Vec::new();
        blocked_hostnames.push("localhost".to_string());
        blocked_hostnames.push("metadata.google.internal".to_string());
        let mut blocked_hostname_suffixes: Vec<String> = Vec::new();
        blocked_hostname_suffixes.push(".local".to_string());
        blocked_hostname_suffixes.push(".internal".to_string());
        blocked_hostname_suffixes.push(".localdomain".to_string());
        assert(texts(blocked_hostnames@) =~= seq!["localhost"@, "metadata.google.internal"@]);
        assert(texts(blocked_hostname_suffixes@) =~= seq![
            ".local"@,
            ".internal"@,
            ".localdomain"@,
        ]);
        SecurityConfig { skip_ssrf_validation: false, blocked_hostnames, blocked_hostname_suffixes }
    }
}

/// Page sizes of list endpoints.
#[derive(Clone, Copy, Debug, PartialEq, Eq, Structural)]
pub struct PaginationConfig {
    /// Page size where none is asked for.
    pub default_per_page: i64,
    /// Largest page size.
    pub max_per_page: i64,
}

impl Default for PaginationConfig {
    fn default() -> (r: Self)
        ensures
            r.default_per_page == 50,
            r.max_per_page == 100,
    {
        PaginationConfig { default_per_page: 50, max_per_page: 100 }
    }
}

/// The database connection pool.
#[derive(Clone, Copy, Debug, PartialEq, Eq, Structural)]
pub struct PoolConfig {
    /// Most connections.
    pub max_size: u32,
    /// Idle connections to keep.
    pub min_idle: u32,
    /// Longest life of a connection, in seconds.
    pub max_lifetime_secs: u64,
    /// Longest idle time of a connection, in seconds.
    pub idle_timeout_secs: u64,
    /// Longest wait for a connection, in seconds.
    pub connection_timeout_secs: u64,
}

/// The background workers.
#[derive(Clone, Copy, Debug, PartialEq, Eq, Structural)]
pub struct WorkerConfig {
    /// Interval of the start loop, in milliseconds.
    pub loop_interval_ms: u64,
    /// Interval of the timeout loop, in milliseconds.
    pub timeout_check_interval_ms: u64,
    /// Interval of the counter flush, in milliseconds.
    pub batch_flush_interval_ms: u64,
    /// Interval of the delivery loop, in milliseconds.
    pub webhook_delivery_interval_ms: u64,
    /// Interval of the metrics sampler, in milliseconds.
    pub metrics_sampler_interval_ms: u64,
    /// How long a claim may stay unstarted, in seconds.
    pub claim_timeout_secs: u64,
    /// Whether dead-end ancestors are canceled.
    pub dead_end_cancel_enabled: bool,
    /// Most claims per start iteration; no limit where it is not positive.
    pub start_batch_size: i64,
    /// Most timed-out tasks per pass.
    pub timeout_batch_size: i64,
    /// Most on_start webhooks at once.
    pub webhook_concurrency: usize,
    /// Capacity of the counter channel.
    pub batch_channel_capacity: usize,
    /// Most deliveries per iteration.
    pub webhook_delivery_batch_size: i64,
    /// Most attempts of a delivery.
    pub webhook_max_attempts: i32,
    /// Base of the exponential backoff, in seconds.
    pub webhook_retry_backoff_base_secs: i64,
    /// Longest backoff, in seconds.
    pub webhook_retry_backoff_cap_secs: i64,
    /// Lease of a claimed delivery, in seconds.
    pub webhook_delivery_lease_secs: i64,
    /// Most deliveries at once.
    pub webhook_delivery_concurrency: usize,
}

/// Retention of terminal tasks.
#[derive(Clone, Copy, Debug, PartialEq, Eq, Structural)]
pub struct RetentionConfig {
    /// Whether terminal tasks are archived.
    pub enabled: bool,
    /// Age at which a terminal task is archived, in days.
    pub retention_days: u32,
    /// Interval of the retention loop, in seconds.
    pub cleanup_interval_secs: u64,
    /// Most rows per pass.
    pub batch_size: i64,
    /// Age at which an archived task is purged, in days; never where it is zero.
    pub archive_retention_days: u32,
}

/// The circuit breaker, as configured.
#[derive(Clone, Copy, Debug, PartialEq, Eq, Structural)]
pub struct CircuitBreakerSettings {
    /// Whether the breaker is in use.
    pub enabled: bool,
    /// Failures that open it.
    pub failure_threshold: u32,
    /// Window in which failures count, in seconds.
    pub failure_window_secs: u64,
    /// How long it stays open, in seconds.
    pub recovery_timeout_secs: u64,
    /// Successes that close it again.
    pub success_threshold: u32,
}

/// The settings of the service.
#[derive(Debug)]
pub struct Config {
    /// HTTP port.
    pub port: u16,
    /// Public address of the service.
    pub host_url: String,
    /// Database to use.
    pub database_url: String,
    /// Bearer token that requests need, if any.
    pub auth_token: Option<String>,
    /// Page sizes.
    pub pagination: PaginationConfig,
    /// Webhook targets.
    pub security: SecurityConfig,
    /// Connection pool.
    pub pool: PoolConfig,
    /// Background workers.
    pub worker: WorkerConfig,
    /// Retention.
    pub retention: RetentionConfig,
    /// Circuit breaker.
    pub circuit_breaker: CircuitBreakerSettings,
}

/// A circuit breaker to create.
#[derive(Clone, Copy, Debug, PartialEq, Eq, Structural)]
pub struct CircuitBreakerConfig {
    /// Failures that open it.
    pub failure_threshold: u32,
    /// Window in which failures count, in seconds.
    pub failure_window_secs: u64,
    /// How long it stays open, in seconds.
    pub recovery_timeout_secs: u64,
    /// Successes that close it again.
    pub success_threshold: u32,
}

/// The breaker to create: the configured one, or, where it is switched off, one
/// that practically never opens.
pub fn create_circuit_breaker(settings: &CircuitBreakerSettings) -> (r: CircuitBreakerConfig)
    ensures
        settings.enabled ==> r == (CircuitBreakerConfig {
            failure_threshold: settings.failure_threshold,
            failure_window_secs: settings.failure_window_secs,
            recovery_timeout_secs: settings.recovery_timeout_secs,
            success_threshold: settings.success_threshold,
        }),
        !settings.enabled ==> r == (CircuitBreakerConfig {
            failure_threshold: u32::MAX,
            failure_window_secs: 1,
            recovery_timeout_secs: 1,
            success_threshold: 1,
        }),
{
    if settings.enabled {
        CircuitBreakerConfig {
            failure_threshold: settings.failure_threshold,
            failure_window_secs: settings.failure_window_secs,
            recovery_timeout_secs: settings.recovery_timeout_secs,
            success_threshold: settings.success_threshold,
        }
    } else {
        CircuitBreakerConfig {
            failure_threshold: u32::MAX,
            failure_window_secs: 1,
            recovery_timeout_secs: 1,
            success_threshold: 1,
        }
    }
}

} // verus!
