//! Checks on what requests carry.

pub mod check_laws;
pub mod rules;
pub mod ssrf;
pub mod tasks;

use crate::action::WebhookParams;
use crate::config::SecurityConfig;
use crate::models::texts;
use crate::validation::ssrf::{
    url_parse, url_refusal, validate_webhook_url_with_config, verdict_is,
};
use vstd::prelude::*;

verus! {

/// Why the parameters of a webhook action are refused, if they are: they do not
/// parse, or their URL is refused.
pub open spec fn params_refusal(
    params: Result<WebhookParams, String>,
    config: SecurityConfig,
) -> Option<Seq<char>> {
    match params {
        Err(e) => Some("Invalid webhook params: "@ + e@),
        Ok(p) => url_refusal(
            url_parse(p.url@),
            config.skip_ssrf_validation,
            texts(config.blocked_hostnames@),
            texts(config.blocked_hostname_suffixes@),
        ),
    }
}

/// Validates the parameters of a webhook action, given the outcome of parsing
/// them.
pub fn validate_action_params(params: &Result<WebhookParams, String>, config: &SecurityConfig) -> (r:
    Result<(), String>)
    ensures
        verdict_is(r, params_refusal(*params, *config)),
{
    match params {
        Ok(p) => validate_webhook_url_with_config(p.url.as_str(), config),
        Err(e) => Err("Invalid webhook params: ".to_string().concat(e.as_str())),
    }
}

} // verus!
