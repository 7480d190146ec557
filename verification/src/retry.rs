//! Asking again: what is done when the provider refuses a request for a while.
//!
//! A request is asked again as a whole, and only before anything of its answer has come.
use vstd::prelude::*;

verus! {

/// How often a request is asked again.
pub const MAX_RETRIES: u32 = 4;

/// How long the first wait is, in milliseconds.
pub const FIRST_WAIT: u64 = 500;

/// What follows a refusal.
#[derive(Clone, Copy, Debug, PartialEq, Eq, Structural)]
pub enum Retry {
    /// The request is asked again after a wait.
    Again { millis: u64 },
    /// The refusal stands.
    Stop,
}

/// Whether a refusal may pass: too many requests, or a fault at the provider.
pub open spec fn may_pass(status: u16) -> bool {
    status == 429 || 500 <= status <= 599
}

/// How long to wait before asking again, where that was done `attempt` times before.
pub open spec fn wait_before(attempt: nat) -> nat
    decreases attempt,
{
    if attempt == 0 {
        FIRST_WAIT as nat
    } else {
        2 * wait_before((attempt - 1) as nat)
    }
}

/// What follows a refusal with a status, where the request was asked again `attempt` times
/// before.
pub open spec fn retry_of(status: u16, attempt: u32) -> Retry {
    if may_pass(status) && attempt < MAX_RETRIES {
        Retry::Again { millis: wait_before(attempt as nat) as u64 }
    } else {
        Retry::Stop
    }
}

/// What follows a refusal.
pub fn after_status(status: u16, attempt: u32) -> (r: Retry)
    ensures
        r == retry_of(status, attempt),
{
    if (status != 429 && (status < 500 || status > 599)) || attempt >= MAX_RETRIES {
        return Retry::Stop;
    }
    proof {
        law_waits_are_short(attempt);
    }
    let mut millis: u64 = FIRST_WAIT;
    let mut i: u32 = 0;
    while i < attempt
        invariant
            i <= attempt < MAX_RETRIES,
            millis == wait_before(i as nat),
        decreases attempt - i,
    {
        proof {
            law_waits_are_short((i + 1) as u32);
        }
        millis = 2 * millis;
        i += 1;
    }
    Retry::Again { millis }
}

/// A request is asked again just where the refusal may pass and was not met too often.
pub proof fn law_only_passing_refusals_are_retried(status: u16, attempt: u32)
    ensures
        (retry_of(status, attempt) is Again) == (attempt < MAX_RETRIES && (status == 429 || 500
            <= status <= 599)),
{
}

/// Each wait is twice as long as the one before it.
pub proof fn law_waits_double(status: u16, attempt: u32)
    requires
        attempt < u32::MAX,
        retry_of(status, (attempt + 1) as u32) is Again,
    ensures
        retry_of(status, attempt) is Again,
        retry_of(status, (attempt + 1) as u32)->millis == 2 * retry_of(status, attempt)->millis,
{
    law_waits_are_short(attempt);
    law_waits_are_short((attempt + 1) as u32);
}

/// No wait is longer than eight times the first.
pub proof fn law_waits_are_short(attempt: u32)
    requires
        attempt < MAX_RETRIES,
    ensures
        FIRST_WAIT <= wait_before(attempt as nat) <= 8 * FIRST_WAIT,
{
    reveal_with_fuel(wait_before, 5);
}

/// The waits are half a second, one, two and four seconds; after them the refusal stands.
pub proof fn law_waits_are_known(status: u16, attempt: u32)
    requires
        status == 429 || 500 <= status < 600,
    ensures
        attempt == 0 ==> retry_of(status, attempt) == (Retry::Again { millis: 500 }),
        attempt == 1 ==> retry_of(status, attempt) == (Retry::Again { millis: 1000 }),
        attempt == 2 ==> retry_of(status, attempt) == (Retry::Again { millis: 2000 }),
        attempt == 3 ==> retry_of(status, attempt) == (Retry::Again { millis: 4000 }),
        attempt >= 4 ==> retry_of(status, attempt) == Retry::Stop,
{
    reveal_with_fuel(wait_before, 5);
}

} // verus!
