//! Which requests pass the checks.

use crate::action::WebhookParams;
use crate::config::SecurityConfig;
use crate::db::task_insert::deps_of;
use crate::dtos::{NewTaskDto, UpdateView};
use crate::models::{texts, StrategyView};
use crate::text::{decimal, ends_in, lower_case};
use crate::text_laws::{is_blank, trimming_cuts_the_ends};
use crate::validation::params_refusal;
use crate::validation::rules::{counter_errors, rule_errors};
use crate::validation::ssrf::{
    internal, name_blocked, url_parse, url_refusal, HostKindView, IpAddr, UrlView,
};
use crate::validation::tasks::{
    batch_errors, declared, dependency_errors, params_errors, task_errors,
};
use vstd::prelude::*;

verus! {

/// A dependency on a task that stands earlier in the request.
pub open spec fn points_back(tasks: Seq<NewTaskDto>, i: int, id: Seq<char>) -> bool {
    exists|j: int| 0 <= j < i && (#[trigger] tasks[j]).id@ == id
}

/// A task that is in order: it has a name and a kind, depends on earlier tasks alone, and
/// none of its actions is refused.
pub open spec fn in_order(
    tasks: Seq<NewTaskDto>,
    params: Seq<Result<WebhookParams, String>>,
    config: SecurityConfig,
    i: int,
) -> bool {
    &&& !is_blank(tasks[i].name@)
    &&& !is_blank(tasks[i].kind@)
    &&& forall|d: int|
        0 <= d < deps_of(tasks[i]).len() ==> points_back(
            tasks,
            i,
            (#[trigger] deps_of(tasks[i])[d]).id@,
        )
    &&& forall|k: int|
        0 <= k < params.len() ==> params_refusal(#[trigger] params[k], config) is None
}

proof fn lemma_dependency_errors(tasks: Seq<NewTaskDto>, i: nat, n: nat)
    requires
        i < tasks.len(),
        n <= deps_of(tasks[i as int]).len(),
    ensures
        dependency_errors(tasks, i, n).len() == 0 <==> forall|d: int|
            0 <= d < n ==> points_back(tasks, i as int, (#[trigger] deps_of(tasks[i as int])[d]).id@),
    decreases n,
{
    if n > 0 {
        lemma_dependency_errors(tasks, i, (n - 1) as nat);
        let id = deps_of(tasks[i as int])[n - 1].id@;
        assert(declared(tasks, i, id) == points_back(tasks, i as int, id));
    }
}

proof fn lemma_params_errors(
    params: Seq<Result<WebhookParams, String>>,
    config: SecurityConfig,
    i: nat,
    n: nat,
)
    requires
        n <= params.len(),
    ensures
        params_errors(params, config, i, n).len() == 0 <==> forall|k: int|
            0 <= k < n ==> params_refusal(#[trigger] params[k], config) is None,
    decreases n,
{
    if n > 0 {
        lemma_params_errors(params, config, i, (n - 1) as nat);
        assert(params[n - 1] == params[n - 1]);
    }
}

proof fn lemma_task_errors(
    tasks: Seq<NewTaskDto>,
    params: Seq<Result<WebhookParams, String>>,
    config: SecurityConfig,
    i: nat,
)
    requires
        i < tasks.len(),
    ensures
        task_errors(tasks, params, config, i).len() == 0 <==> in_order(
            tasks,
            params,
            config,
            i as int,
        ),
        is_blank(tasks[i as int].name@) ==> task_errors(tasks, params, config, i).contains(
            "tasks["@ + decimal(i) + "].name: Task name cannot be empty"@,
        ),
        is_blank(tasks[i as int].kind@) ==> task_errors(tasks, params, config, i).contains(
            "tasks["@ + decimal(i) + "].kind: Task kind cannot be empty"@,
        ),
{
    let t = tasks[i as int];
    trimming_cuts_the_ends(t.name@);
    trimming_cuts_the_ends(t.kind@);
    lemma_dependency_errors(tasks, i, deps_of(t).len());
    lemma_params_errors(params, config, i, params.len());
    let e = task_errors(tasks, params, config, i);
    if is_blank(t.name@) {
        assert(e[0] == "tasks["@ + decimal(i) + "].name: Task name cannot be empty"@);
    }
    if is_blank(t.kind@) {
        let k = if is_blank(t.name@) {
            1int
        } else {
            0
        };
        assert(e[k] == "tasks["@ + decimal(i) + "].kind: Task kind cannot be empty"@);
    }
}

/// A request passes if and only if each of its tasks is in order. A task without a name
/// or a kind is reported with its place, whatever else is wrong.
pub proof fn requests_pass_when_in_order(
    tasks: Seq<NewTaskDto>,
    params: Seq<Vec<Result<WebhookParams, String>>>,
    config: SecurityConfig,
    n: nat,
)
    requires
        n <= tasks.len(),
    ensures
        batch_errors(tasks, params, config, n).len() == 0 <==> forall|i: int|
            #![trigger tasks[i]]
            0 <= i < n ==> in_order(tasks, params[i]@, config, i),
        forall|i: int|
            0 <= i < n && is_blank((#[trigger] tasks[i]).name@) ==> batch_errors(
                tasks,
                params,
                config,
                n,
            ).contains("tasks["@ + decimal(i as nat) + "].name: Task name cannot be empty"@),
        forall|i: int|
            0 <= i < n && is_blank((#[trigger] tasks[i]).kind@) ==> batch_errors(
                tasks,
                params,
                config,
                n,
            ).contains("tasks["@ + decimal(i as nat) + "].kind: Task kind cannot be empty"@),
    decreases n,
{
    if n > 0 {
        let m = (n - 1) as nat;
        requests_pass_when_in_order(tasks, params, config, m);
        lemma_task_errors(tasks, params[m as int]@, config, m);
        let a = batch_errors(tasks, params, config, m);
        let b = task_errors(tasks, params[m as int]@, config, m);
        let e = batch_errors(tasks, params, config, n);
        assert(e == a + b);
        assert(tasks[m as int] == tasks[m as int]);
        assert forall|x: Seq<char>| a.contains(x) || b.contains(x) implies #[trigger] e.contains(
            x,
        ) by {
            if a.contains(x) {
                let k = choose|k: int| 0 <= k < a.len() && a[k] == x;
                assert(e[k] == x);
            } else {
                let k = choose|k: int| 0 <= k < b.len() && b[k] == x;
                assert(e[a.len() + k] == x);
            }
        }
    }
}

/// Rules pass if and only if each allows something and names a kind.
pub proof fn rules_pass_when_in_order(rules: Seq<StrategyView>, n: nat)
    requires
        n <= rules.len(),
    ensures
        rule_errors(rules, n).len() == 0 <==> forall|i: int|
            0 <= i < n ==> match #[trigger] rules[i] {
                StrategyView::Concurency { limit, matcher } => limit > 0 && !is_blank(matcher.kind),
                StrategyView::Capacity { limit, matcher } => limit > 0 && !is_blank(matcher.kind),
            },
    decreases n,
{
    if n > 0 {
        rules_pass_when_in_order(rules, (n - 1) as nat);
        let r = rules[n - 1];
        trimming_cuts_the_ends(
            match r {
                StrategyView::Concurency { matcher, .. } => matcher.kind,
                StrategyView::Capacity { matcher, .. } => matcher.kind,
            },
        );
    }
}

/// Reported counts pass if and only if neither takes anything away.
pub proof fn counts_pass_when_they_add(dto: UpdateView)
    ensures
        counter_errors(dto).len() == 0 <==> (dto.new_success is None || dto.new_success->0 >= 0)
            && (dto.new_failures is None || dto.new_failures->0 >= 0),
{
}

/// The IPv4 blocks that are not public, by their first two bytes as one number.
pub open spec fn in_reserved_block(n: int) -> bool {
    ||| 0x0000 <= n <= 0x00ff
    ||| 0x0a00 <= n <= 0x0aff
    ||| 0x7f00 <= n <= 0x7fff
    ||| n == 0xa9fe
    ||| 0xac10 <= n <= 0xac1f
    ||| n == 0xc0a8
}

/// An IPv4 address is internal if and only if it lies in a reserved block, written as
/// such or mapped into IPv6; of other IPv6 addresses, those of the link and of the site,
/// the unspecified one and the loopback.
pub proof fn internal_addresses_lie_in_reserved_blocks(ip: IpAddr)
    ensures
        match ip {
            IpAddr::V4(o) => internal(ip) <==> in_reserved_block(o@[0] * 256 + o@[1]),
            IpAddr::V6(s) => {
                let zero_to = |k: int| forall|j: int| 0 <= j < k ==> #[trigger] s@[j] == 0;
                if zero_to(5) && s@[5] == 0xffff {
                    internal(ip) <==> in_reserved_block(s@[6] as int)
                } else {
                    internal(ip) <==> s@[0] as int / 64 == 0x3fa || s@[0] as int / 512
                        == 0x7e || (zero_to(7) && s@[7] <= 1)
                }
            },
        },
{
    match ip {
        IpAddr::V4(o) => {},
        IpAddr::V6(s) => {
            let x = s@[6];
            assert(((x / 256) as u8) as int == x as int / 256);
            assert(((x % 256) as u8) as int == x as int % 256);
            let zero_to = |k: int| forall|j: int| 0 <= j < k ==> #[trigger] s@[j] == 0;
            if s@[0] == 0 && s@[1] == 0 && s@[2] == 0 && s@[3] == 0 && s@[4] == 0 {
                assert forall|j: int| 0 <= j < 5 implies #[trigger] s@[j] == 0 by {}
                assert(zero_to(5));
                if s@[5] == 0 && s@[6] == 0 {
                    assert forall|j: int| 0 <= j < 7 implies #[trigger] s@[j] == 0 by {}
                    assert(zero_to(7));
                }
            }
            if zero_to(5) {
                assert(s@[0] == 0 && s@[1] == 0 && s@[2] == 0 && s@[3] == 0 && s@[4] == 0);
            }
            if zero_to(7) {
                assert(s@[0] == 0 && s@[1] == 0 && s@[2] == 0 && s@[3] == 0 && s@[4] == 0
                    && s@[5] == 0 && s@[6] == 0);
            }
        },
    }
}

/// A host that is let through: it is none of the blocked names nor under one of them, has
/// none of the blocked endings, and is no internal address.
pub open spec fn is_outside(
    host: Seq<char>,
    kind: HostKindView,
    blocked: Seq<Seq<char>>,
    suffixes: Seq<Seq<char>>,
) -> bool {
    &&& forall|i: int|
        0 <= i < blocked.len() ==> lower_case(host) != lower_case(#[trigger] blocked[i])
            && !ends_in(lower_case(host), "."@ + lower_case(blocked[i]))
    &&& forall|i: int|
        0 <= i < suffixes.len() ==> !ends_in(lower_case(host), #[trigger] suffixes[i])
    &&& kind is Address ==> !internal(kind->ip)
}

/// A URL passes if and only if it parses and either the check is off or it is an HTTP or
/// HTTPS one to an outside host. So do the parameters of an action, if they parse.
pub proof fn urls_pass_to_outside_hosts(
    parsed: Result<UrlView, Seq<char>>,
    blocked: Seq<Seq<char>>,
    suffixes: Seq<Seq<char>>,
    params: Result<WebhookParams, String>,
    config: SecurityConfig,
)
    ensures
        url_refusal(parsed, false, blocked, suffixes) is None <==> {
            &&& parsed is Ok
            &&& (parsed->Ok_0.scheme == "http"@ || parsed->Ok_0.scheme == "https"@)
            &&& parsed->Ok_0.host is Some
            &&& is_outside(parsed->Ok_0.host->0, parsed->Ok_0.kind, blocked, suffixes)
        },
        url_refusal(parsed, true, blocked, suffixes) is None <==> parsed is Ok,
        params is Err ==> params_refusal(params, config) is Some,
        params matches Ok(p) ==> params_refusal(params, config) == url_refusal(
            url_parse(p.url@),
            config.skip_ssrf_validation,
            texts(config.blocked_hostnames@),
            texts(config.blocked_hostname_suffixes@),
        ),
{
    if parsed is Ok && parsed->Ok_0.host is Some {
        let host = parsed->Ok_0.host->0;
        let low = lower_case(host);
        let b = blocked.map_values(|x: Seq<char>| lower_case(x));
        if is_outside(host, parsed->Ok_0.kind, blocked, suffixes) {
            assert forall|i: int| 0 <= i < b.len() implies !name_blocked(low, #[trigger] b[i]) by {
                assert(b[i] == lower_case(blocked[i]));
            }
        } else {
            if exists|i: int|
                0 <= i < blocked.len() && (low == lower_case(#[trigger] blocked[i]) || ends_in(
                    low,
                    "."@ + lower_case(blocked[i]),
                )) {
                let i = choose|i: int|
                    0 <= i < blocked.len() && (low == lower_case(#[trigger] blocked[i]) || ends_in(
                        low,
                        "."@ + lower_case(blocked[i]),
                    ));
                assert(name_blocked(low, b[i]));
            } else if exists|i: int|
                0 <= i < suffixes.len() && ends_in(low, #[trigger] suffixes[i]) {
            } else {
                assert(parsed->Ok_0.kind is Address && internal(parsed->Ok_0.kind->ip));
            }
        }
    }
}

} // verus!
