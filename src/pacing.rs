//! Request pacing: when to send the next request and what to do with a reply.
use vstd::prelude::*;

verus! {

/// Least time between two requests, in milliseconds.
pub const TICK_MS: u64 = 100;

/// Wait before the one retry of a request the service turned away.
pub const RETRY_WAIT_MS: u64 = 2 * TICK_MS;

/// HTTP status of a complete reply.
pub const STATUS_OK: u16 = 200;

/// HTTP status of a reply that holds part of what was asked.
pub const STATUS_PARTIAL: u16 = 206;

/// HTTP status of a reply that asks the client to slow down.
pub const STATUS_TOO_MANY: u16 = 429;

/// What to do once a reply has come.
#[derive(Debug, Clone, Copy, PartialEq, Eq, Structural)]
pub enum Step {
    /// Read the body.
    Accept,
    /// Wait `wait_ms` milliseconds and send the same request once more.
    Retry { wait_ms: u64 },
    /// Give up on the request.
    Fail,
}

/// How long to wait before sending a request `elapsed_ms` after the
/// previous one.
pub fn wait_before(elapsed_ms: u64) -> (r: u64)
    ensures
        r == if elapsed_ms < TICK_MS {
            TICK_MS - elapsed_ms
        } else {
            0
        },
{
    if elapsed_ms < TICK_MS {
        TICK_MS - elapsed_ms
    } else {
        0
    }
}

/// What to do with a reply of HTTP status `status`; `retried` tells whether
/// the request has already been sent a second time. Complete and partial
/// replies are read; the first "too many requests" is retried after
/// [`RETRY_WAIT_MS`]; anything else fails.
pub fn after_reply(status: u16, retried: bool) -> (r: Step)
    ensures
        r == if status == STATUS_OK || status == STATUS_PARTIAL {
            Step::Accept
        } else if status == STATUS_TOO_MANY && !retried {
            Step::Retry { wait_ms: RETRY_WAIT_MS }
        } else {
            Step::Fail
        },
{
    if status == STATUS_OK || status == STATUS_PARTIAL {
        Step::Accept
    } else if status == STATUS_TOO_MANY && !retried {
        Step::Retry { wait_ms: RETRY_WAIT_MS }
    } else {
        Step::Fail
    }
}

} // verus!
