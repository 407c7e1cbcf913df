//! Checks on start rules, and on reported counts.

use crate::dtos::{UpdateTaskDto, UpdateView};
use crate::models::{texts, MatcherView, Rules, Strategy, StrategyView};
use crate::text::{decimal, to_decimal, trim, trimmed};
use crate::validation::tasks::message_if;
use vstd::prelude::*;

verus! {

/// The limit of a rule.
pub open spec fn limit_of(s: StrategyView) -> int {
    match s {
        StrategyView::Concurency { limit, .. } => limit,
        StrategyView::Capacity { limit, .. } => limit,
    }
}

/// What a rule counts.
pub open spec fn matcher_of(s: StrategyView) -> MatcherView {
    match s {
        StrategyView::Concurency { matcher, .. } => matcher,
        StrategyView::Capacity { matcher, .. } => matcher,
    }
}

/// The message for a rule that no task could ever pass.
pub open spec fn no_limit_message(i: nat) -> Seq<char> {
    "rules["@ + decimal(i) + "]: the limit must be greater than 0"@
}

/// The message for a rule without a kind.
pub open spec fn no_matcher_kind_message(i: nat) -> Seq<char> {
    "rules["@ + decimal(i) + "].matcher.kind: Task kind cannot be empty"@
}

/// What is wrong with the first `n` rules, in order: a limit that is not positive lets
/// no task start, and a blank kind matches none.
pub open spec fn rule_errors(rules: Seq<StrategyView>, n: nat) -> Seq<Seq<char>>
    decreases n,
{
    if n == 0 {
        Seq::empty()
    } else {
        let i = (n - 1) as nat;
        let s = rules[i as int];
        rule_errors(rules, i) + message_if(limit_of(s) <= 0, no_limit_message(i)) + message_if(
            trimmed(matcher_of(s).kind).len() == 0,
            no_matcher_kind_message(i),
        )
    }
}

/// `rules[i]` and what follows it in a message.
fn rule_message(i: usize, rest: &str) -> (r: String)
    ensures
        r@ == "rules["@ + decimal(i as nat) + rest@,
{
    "rules[".to_string().concat(to_decimal(i).as_str()).concat(rest)
}

/// Validates start rules. All errors are reported.
pub fn validate_rules(rules: &Rules) -> (r: Result<(), Vec<String>>)
    ensures
        match r {
            Ok(_) => rule_errors(rules@, rules@.len()).len() == 0,
            Err(errors) => errors@.len() > 0 && texts(errors@) == rule_errors(
                rules@,
                rules@.len(),
            ),
        },
{
    let mut errors: Vec<String> = Vec::new();
    let mut i: usize = 0;
    assert(texts(errors@) =~= rule_errors(rules@, 0));
    while i < rules.0.len()
        invariant
            i <= rules.0@.len(),
            rules@.len() == rules.0@.len(),
            texts(errors@) == rule_errors(rules@, i as nat),
        decreases rules.0.len() - i,
    {
        let ghost start = texts(errors@);
        let ghost s = rules@[i as int];
        assert(s == rules.0@[i as int]@);
        let ghost limited = message_if(limit_of(s) <= 0, no_limit_message(i as nat));
        let (limit, kind): (i32, &String) = match &rules.0[i] {
            Strategy::Concurency { max_concurency, matcher } => (*max_concurency, &matcher.kind),
            Strategy::Capacity { max_capacity, matcher } => (*max_capacity, &matcher.kind),
        };
        if limit <= 0 {
            errors.push(rule_message(i, "]: the limit must be greater than 0"));
        }
        assert(texts(errors@) =~= start + limited);
        if trim(kind.as_str()).unicode_len() == 0 {
            errors.push(rule_message(i, "].matcher.kind: Task kind cannot be empty"));
        }
        i += 1;
        assert(texts(errors@) =~= rule_errors(rules@, i as nat));
    }
    if errors.len() == 0 {
        Ok(())
    } else {
        Err(errors)
    }
}

/// Whether a reported count takes something away.
pub open spec fn lowers(n: Option<int>) -> bool {
    n matches Some(x) && x < 0
}

/// What is wrong with reported counts: they only ever add.
pub open spec fn counter_errors(dto: UpdateView) -> Seq<Seq<char>> {
    message_if(lowers(dto.new_success), "new_success: must not be negative"@) + message_if(
        lowers(dto.new_failures),
        "new_failures: must not be negative"@,
    )
}

fn is_negative(n: Option<i32>) -> (r: bool)
    ensures
        r == lowers(crate::models::opt_int_i32(n)),
{
    match n {
        Some(x) => x < 0,
        None => false,
    }
}

/// Validates reported counts. All errors are reported.
pub fn validate_update_task_counters(dto: &UpdateTaskDto) -> (r: Result<(), Vec<String>>)
    ensures
        match r {
            Ok(_) => counter_errors(dto@).len() == 0,
            Err(errors) => errors@.len() > 0 && texts(errors@) == counter_errors(dto@),
        },
{
    let mut errors: Vec<String> = Vec::new();
    let ghost first = message_if(
        lowers(dto@.new_success),
        "new_success: must not be negative"@,
    );
    if is_negative(dto.new_success) {
        errors.push("new_success: must not be negative".to_string());
    }
    assert(texts(errors@) =~= first);
    if is_negative(dto.new_failures) {
        errors.push("new_failures: must not be negative".to_string());
    }
    assert(texts(errors@) =~= counter_errors(dto@));
    if errors.len() == 0 {
        Ok(())
    } else {
        Err(errors)
    }
}

} // verus!
