//! The decisions of the request loop: how long to wait between requests,
//! and what to do with each reply status.
use vstd::prelude::*;

use crate::text::{append_chars, chars_of, string_of};

verus! {

/// How many times a request is tried before giving up.
pub const MAX_RETRIES: u32 = 8;

/// The least time between two requests to Scryfall, in milliseconds.
pub const SCRYFALL_INTERVAL_MS: u64 = 150;

/// The least time between two requests to the Pokemon TCG service, in
/// milliseconds.
pub const POKEMON_INTERVAL_MS: u64 = 200;

/// What to do with a reply.
#[derive(PartialEq, Eq, Structural, Clone, Copy, Debug)]
pub enum RetryAction {
    /// Wait this many seconds, then try again.
    Retry { delay_secs: u64 },
    /// Give up with an error: the status is neither a success nor one that
    /// is worth retrying.
    Fail,
    /// Use the reply.
    Accept,
}

/// "Too many requests" or a server error: worth trying again.
pub open spec fn is_retryable(status: u16) -> bool {
    status == 429 || (500 <= status && status <= 599)
}

/// A success status.
pub open spec fn is_success(status: u16) -> bool {
    200 <= status && status <= 299
}

/// The action for a reply with the given status on attempt `attempt`
/// (counted from 0), when the wait before retry `k` is `base + step * k`
/// seconds.
pub open spec fn retry_action_spec(status: u16, attempt: u32, base: u64, step: u64) -> RetryAction {
    if is_retryable(status) {
        RetryAction::Retry { delay_secs: (base + step * attempt) as u64 }
    } else if !is_success(status) {
        RetryAction::Fail
    } else {
        RetryAction::Accept
    }
}

/// What Scryfall's client does with a reply: retry after `1 + attempt`
/// seconds on 429 or a 5xx status, fail on any other non-2xx status,
/// accept a 2xx reply.
pub fn scryfall_retry_action(status: u16, attempt: u32) -> (a: RetryAction)
    ensures
        a == retry_action_spec(status, attempt, 1, 1),
{
    if status == 429 || (500 <= status && status <= 599) {
        RetryAction::Retry { delay_secs: 1 + attempt as u64 }
    } else if !(200 <= status && status <= 299) {
        RetryAction::Fail
    } else {
        RetryAction::Accept
    }
}

/// What the Pokemon client does with a reply: retry after `2 + 2 * attempt`
/// seconds on 429 or a 5xx status, fail on any other non-2xx status,
/// accept a 2xx reply.
pub fn pokemon_retry_action(status: u16, attempt: u32) -> (a: RetryAction)
    ensures
        a == retry_action_spec(status, attempt, 2, 2),
{
    if status == 429 || (500 <= status && status <= 599) {
        RetryAction::Retry { delay_secs: 2 + 2 * (attempt as u64) }
    } else if !(200 <= status && status <= 299) {
        RetryAction::Fail
    } else {
        RetryAction::Accept
    }
}

/// How long to wait before the next request so that requests are at least
/// `interval` apart, when `elapsed` has passed since the last one (in any
/// one unit).
pub fn wait_before_request(elapsed: u128, interval: u128) -> (w: u128)
    ensures
        w == if elapsed < interval {
            interval - elapsed
        } else {
            0
        },
        elapsed + w >= interval,
{
    if elapsed < interval {
        interval - elapsed
    } else {
        0
    }
}

/// What the request loop does next.
#[derive(PartialEq, Eq, Structural, Clone, Copy, Debug)]
pub enum RequestAction {
    /// Use the reply kept in the cache; send nothing.
    UseCached,
    /// Send the request (again).
    Send,
    /// Wait this many seconds, then go on with the next attempt.
    Wait { delay_secs: u64 },
    /// Give up with an error on this status.
    Fail,
    /// Use the reply.
    Accept,
    /// Give up: every attempt was spent.
    GiveUp,
}

/// The step that a reply's action leads to.
pub open spec fn step_after(a: RetryAction) -> RequestAction {
    match a {
        RetryAction::Retry { delay_secs } => RequestAction::Wait { delay_secs },
        RetryAction::Fail => RequestAction::Fail,
        RetryAction::Accept => RequestAction::Accept,
    }
}

/// The next step of the request loop: a cached reply is used; before an
/// attempt (no status yet) the request is sent while attempts remain;
/// after a reply its status decides, waits growing as `base + step *
/// attempt` seconds.
pub open spec fn request_step_spec(
    cached: bool,
    status: Option<u16>,
    attempt: u32,
    base: u64,
    step: u64,
) -> RequestAction {
    if cached {
        RequestAction::UseCached
    } else {
        match status {
            None => if attempt < MAX_RETRIES {
                RequestAction::Send
            } else {
                RequestAction::GiveUp
            },
            Some(s) => step_after(retry_action_spec(s, attempt, base, step)),
        }
    }
}

fn step_of(cached: bool, status: Option<u16>, attempt: u32, action: Option<RetryAction>) -> (r:
    RequestAction)
    requires
        status is None <==> action is None,
    ensures
        r == (if cached {
            RequestAction::UseCached
        } else {
            match action {
                None => if attempt < MAX_RETRIES {
                    RequestAction::Send
                } else {
                    RequestAction::GiveUp
                },
                Some(a) => step_after(a),
            }
        }),
{
    if cached {
        RequestAction::UseCached
    } else {
        match action {
            None => if attempt < MAX_RETRIES {
                RequestAction::Send
            } else {
                RequestAction::GiveUp
            },
            Some(RetryAction::Retry { delay_secs }) => RequestAction::Wait { delay_secs },
            Some(RetryAction::Fail) => RequestAction::Fail,
            Some(RetryAction::Accept) => RequestAction::Accept,
        }
    }
}

/// The next step of a Scryfall request: `cached` tells whether the cache
/// holds a reply, `status` is the status of this attempt's reply, if one
/// came.
pub fn scryfall_request_step(cached: bool, status: Option<u16>, attempt: u32) -> (a:
    RequestAction)
    ensures
        a == request_step_spec(cached, status, attempt, 1, 1),
{
    let action = match status {
        Some(s) => Some(scryfall_retry_action(s, attempt)),
        None => None,
    };
    step_of(cached, status, attempt, action)
}

/// The next step of a Pokemon TCG request (which is never cached).
pub fn pokemon_request_step(status: Option<u16>, attempt: u32) -> (a: RequestAction)
    ensures
        a == request_step_spec(false, status, attempt, 2, 2),
{
    let action = match status {
        Some(s) => Some(pokemon_retry_action(s, attempt)),
        None => None,
    };
    step_of(false, status, attempt, action)
}

/// The key a POST reply is cached under: the address, `|`, and the body.
pub fn post_cache_key(url: &str, body: &str) -> (k: String)
    ensures
        k@ == url@ + "|"@ + body@,
{
    let mut v = chars_of(url);
    append_chars(&mut v, &chars_of("|"));
    append_chars(&mut v, &chars_of(body));
    string_of(&v)
}

} // verus!
