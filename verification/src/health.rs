//! `GET /health`: always answered, never routed, authenticated or rate-limited.

use vstd::prelude::*;

use crate::clock::{Instant, NANOS_PER_SEC};
use crate::error::{json_reply, Reply};
use crate::text;

verus! {

/// Whole seconds since `start`, as far as a `u64` can count them.
pub open spec fn uptime(start: Instant, now: Instant) -> nat {
    let secs = now.since(start) / NANOS_PER_SEC as int;
    if secs > u64::MAX {
        u64::MAX as nat
    } else {
        secs as nat
    }
}

/// The body of the health endpoint.
pub open spec fn health_body(seconds: nat) -> Seq<char> {
    "{\"status\":\"healthy\",\"uptime_seconds\":"@ + text::decimal(seconds) + "}"@
}

/// The reply of the health endpoint.
pub fn health_response(start: Instant, now: Instant) -> (r: Reply)
    ensures
        r@ == json_reply(200, health_body(uptime(start, now)), None),
{
    let elapsed: u128 = now.saturating_duration_since(start).nanos / NANOS_PER_SEC;
    let seconds: u64 = if elapsed > u64::MAX as u128 {
        u64::MAX
    } else {
        elapsed as u64
    };
    let mut body = "{\"status\":\"healthy\",\"uptime_seconds\":".to_string();
    body.append(text::decimal_str(seconds).as_str());
    body.append("}");
    Reply::json(200, body)
}

/// Law: the reported uptime never goes down as time goes on.
pub proof fn law_uptime_is_monotonic(start: Instant, sooner: Instant, later: Instant)
    requires
        sooner.nanos <= later.nanos,
    ensures
        uptime(start, sooner) <= uptime(start, later),
{
}

/// Law: the uptime is the whole seconds that have passed since the start, and the
/// reply shows them in decimal.
pub proof fn law_uptime_counts_whole_seconds(start: Instant, now: Instant)
    requires
        start.nanos <= now.nanos,
        now.nanos - start.nanos < u64::MAX * 1_000_000_000,
    ensures
        uptime(start, now) * 1_000_000_000 <= now.nanos - start.nanos,
        now.nanos - start.nanos < (uptime(start, now) + 1) * 1_000_000_000,
        health_body(uptime(start, now)) == "{\"status\":\"healthy\",\"uptime_seconds\":"@
            + text::decimal(uptime(start, now)) + seq!['}'],
{
    reveal_strlit("}");
    assert("}"@ =~= seq!['}']);
}

} // verus!
