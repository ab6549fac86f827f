//! When a failed request to the panel is repeated.
use vstd::prelude::*;

verus! {

/// What to do after a failed request.
#[derive(Clone, Copy, Debug, PartialEq, Eq, Structural)]
pub enum RetryAction {
    /// Wait and ask again, for the `attempt`-th time after the first; `warn`
    /// says whether to tell of it.
    Retry { attempt: u32, warn: bool },
    /// Give up; `tell` says whether to tell of it.
    GiveUp { tell: bool },
}

/// What to do after a failed request that `attempt` failed requests came
/// before.
pub open spec fn action_after(attempt: u32, max_retries: u32, quiet: bool) -> RetryAction {
    if attempt < max_retries {
        RetryAction::Retry { attempt: (attempt + 1) as u32, warn: !quiet }
    } else {
        RetryAction::GiveUp { tell: !quiet }
    }
}

/// What to do after a failed request that `attempt` failed requests came
/// before.
pub fn after_failure(attempt: u32, max_retries: u32, quiet: bool) -> (r: RetryAction)
    ensures
        r == action_after(attempt, max_retries, quiet),
{
    if attempt < max_retries {
        RetryAction::Retry { attempt: attempt + 1, warn: !quiet }
    } else {
        RetryAction::GiveUp { tell: !quiet }
    }
}

/// How many requests are made in all where every request fails, if `attempt`
/// requests have failed before.
pub open spec fn requests_made(attempt: u32, max_retries: u32, quiet: bool) -> nat
    decreases max_retries - attempt,
{
    match action_after(attempt, max_retries, quiet) {
        RetryAction::Retry { attempt: next, .. } => if attempt < next <= max_retries {
            1 + requests_made(next, max_retries, quiet)
        } else {
            1
        },
        RetryAction::GiveUp { .. } => 1,
    }
}

/// Where every request fails, exactly as many follow as retries are left: after
/// the first request the allowed number of them.
pub proof fn law_retries_are_bounded(attempt: u32, max_retries: u32, quiet: bool)
    requires
        attempt <= max_retries,
    ensures
        requests_made(attempt, max_retries, quiet) == max_retries - attempt + 1,
    decreases max_retries - attempt,
{
    if attempt < max_retries {
        law_retries_are_bounded((attempt + 1) as u32, max_retries, quiet);
    }
}

/// A quiet run tells of nothing, and any other of every failure.
pub proof fn law_quiet_tells_of_nothing(attempt: u32, max_retries: u32, quiet: bool)
    ensures
        match action_after(attempt, max_retries, quiet) {
            RetryAction::Retry { warn, .. } => warn == !quiet,
            RetryAction::GiveUp { tell } => tell == !quiet,
        },
{
}

/// A failed request is repeated exactly while retries are left, and each repeat
/// counts as one.
pub proof fn law_each_retry_counts(attempt: u32, max_retries: u32, quiet: bool)
    ensures
        action_after(attempt, max_retries, quiet) is GiveUp <==> attempt >= max_retries,
        attempt < max_retries ==> (action_after(
            attempt,
            max_retries,
            quiet,
        ) matches RetryAction::Retry { attempt: next, .. } && next as int == attempt as int + 1),
{
}

}
