//! The call to the remote: where it goes, and when a failed attempt is repeated.

use vstd::prelude::*;

verus! {

/// The delays between the attempts of one call, in milliseconds: the first is slept
/// after the first failure.
pub open spec fn retry_delays() -> Seq<u64> {
    seq![5u64, 50u64, 250u64, 1000u64, 5000u64, 25000u64]
}

/// What is done about a failed attempt.
#[derive(Clone, Copy, Debug, PartialEq, Eq, Structural)]
pub enum RetryPolicy {
    /// Sleep for so many milliseconds, then make another attempt.
    WaitRetry(u64),
    /// Give the call up, and hand on the error of the last attempt.
    ForwardError,
}

/// What is done after attempt number `attempt` failed, the first attempt being
/// number 1: the next delay of the schedule is slept, and the call is given up
/// when the schedule is used up.
pub open spec fn policy_after(attempt: int) -> RetryPolicy {
    if 1 <= attempt <= retry_delays().len() {
        RetryPolicy::WaitRetry(retry_delays()[attempt - 1])
    } else {
        RetryPolicy::ForwardError
    }
}

/// The delays that a call sleeps whose attempts all fail, from attempt number `from`
/// on.
pub open spec fn delays_when_failing(from: int) -> Seq<u64>
    decreases retry_delays().len() + 1 - from,
{
    if 1 <= from <= retry_delays().len() {
        seq![retry_delays()[from - 1]] + delays_when_failing(from + 1)
    } else {
        Seq::empty()
    }
}

/// How many attempts a call makes whose attempts all fail, from attempt number
/// `from` on.
pub open spec fn attempts_when_failing(from: int) -> nat
    decreases retry_delays().len() + 1 - from,
{
    if 1 <= from <= retry_delays().len() {
        1 + attempts_when_failing(from + 1)
    } else {
        1
    }
}

/// The retry policy of a call to the remote. It keeps nothing from one call to the
/// next: the attempts of every call are counted from 1.
#[derive(Clone, Copy, Debug)]
pub struct RetryStrategy;

impl RetryStrategy {
    /// What is done after attempt number `attempt` of a call failed.
    pub fn handle(&mut self, attempt: usize) -> (policy: RetryPolicy)
        ensures
            policy == policy_after(attempt as int),
    {
        match attempt {
            1 => RetryPolicy::WaitRetry(5),
            2 => RetryPolicy::WaitRetry(50),
            3 => RetryPolicy::WaitRetry(250),
            4 => RetryPolicy::WaitRetry(1000),
            5 => RetryPolicy::WaitRetry(5000),
            6 => RetryPolicy::WaitRetry(25000),
            _ => RetryPolicy::ForwardError,
        }
    }
}

/// A call that fails at every attempt makes one attempt more than the schedule has
/// delays, and sleeps the delays of the schedule in order: after the failure of
/// attempt `n` it sleeps the delay that stands at place `n - 1` of the schedule, and
/// after the last delay it gives up.
pub proof fn law_retry_bound()
    ensures
        attempts_when_failing(1) == retry_delays().len() + 1,
        delays_when_failing(1) == retry_delays(),
        forall|n: int|
            1 <= n <= retry_delays().len() ==> #[trigger] policy_after(n)
                == RetryPolicy::WaitRetry(retry_delays()[n - 1]),
        policy_after(retry_delays().len() as int + 1) == RetryPolicy::ForwardError,
{
    reveal_with_fuel(attempts_when_failing, 8);
    reveal_with_fuel(delays_when_failing, 8);
    assert(delays_when_failing(1) =~= retry_delays());
}

/// Where a request to the remote goes, and what it carries besides its body.
#[derive(Debug)]
pub struct Request {
    pub endpoint: String,
    /// After so many seconds an attempt is given up.
    pub timeout_secs: u64,
    pub user_agent: String,
    /// The credential, sent as a bearer token.
    pub bearer: String,
}

/// The request that carries a query to the remote on behalf of the holder of
/// `api_token`.
pub fn query(api_token: &str) -> (request: Request)
    ensures
        request.endpoint@ == "https://api.github.com/graphql"@,
        request.timeout_secs == 60,
        request.user_agent@ == "github.com/tilpner/github-label-feed"@,
        request.bearer@ == api_token@,
{
    Request {
        endpoint: "https://api.github.com/graphql".to_owned(),
        timeout_secs: 60,
        user_agent: "github.com/tilpner/github-label-feed".to_owned(),
        bearer: api_token.to_owned(),
    }
}

} // verus!
