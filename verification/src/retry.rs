//! Retrying rate-limited requests and walking through paginated results.
use vstd::prelude::*;
use crate::text::{parse_u64, parsed_unsigned};

verus! {

/// The HTTP status that asks to slow down.
pub const TOO_MANY_REQUESTS: u16 = 429;

/// Attempts that are retried with exponential backoff before giving up.
pub const MAX_BACKOFF_TRIES: u32 = 5;

/// `2^n`.
pub open spec fn power_of_two(n: nat) -> nat
    decreases n,
{
    if n == 0 {
        1
    } else {
        2 * power_of_two((n - 1) as nat)
    }
}

/// The delay the server asked for: the `retry-after` header of a
/// too-many-requests answer, when it is an unsigned decimal number.
pub open spec fn requested_delay(status: u16, retry_after: Option<Seq<char>>) -> Option<int> {
    if status == TOO_MANY_REQUESTS {
        match retry_after {
            Some(value) => parsed_unsigned(value, u64::MAX as int),
            None => None,
        }
    } else {
        None
    }
}

/// `2^n` seconds.
fn backoff_seconds(n: u32) -> (s: u64)
    requires
        n <= MAX_BACKOFF_TRIES,
    ensures
        s == power_of_two(n as nat),
{
    let mut s: u64 = 1;
    let mut i: u32 = 0;
    while i < n
        invariant
            i <= n <= MAX_BACKOFF_TRIES,
            s == power_of_two(i as nat),
            s <= 32,
        decreases n - i,
    {
        proof {
            assert(power_of_two((i + 1) as nat) == 2 * power_of_two(i as nat));
            assert(power_of_two(i as nat) <= 16) by {
                reveal_with_fuel(power_of_two, 6);
            }
        }
        s = s * 2;
        i = i + 1;
    }
    s
}

/// What to do after a failed request: `None` to give up and hand the error
/// on, or `Some((seconds, tries))` to wait that long, with the new count of
/// backoff tries, and try again.
///
/// Only too-many-requests answers (`status` is the HTTP status code of an
/// error answer) are retried; every other error is handed on at once. They
/// are retried only while at most `MAX_BACKOFF_TRIES` backoff tries were
/// spent. A readable `retry-after` header is waited out as asked without
/// spending a try; otherwise the wait doubles with every try, starting at
/// one second.
pub open spec fn retry_plan(status: Option<u16>, retry_after: Option<Seq<char>>, num_tries: int) -> Option<(int, int)> {
    match status {
        Some(code) => if code != TOO_MANY_REQUESTS || num_tries > MAX_BACKOFF_TRIES {
            None
        } else {
            match requested_delay(code, retry_after) {
                Some(secs) => Some((secs, num_tries)),
                None => Some((power_of_two(num_tries as nat) as int, num_tries + 1)),
            }
        },
        None => None,
    }
}

/// The view of an optional string.
pub open spec fn optional_chars(s: Option<&str>) -> Option<Seq<char>> {
    match s {
        Some(v) => Some(v@),
        None => None,
    }
}

/// The retry plan for a failed request; see `retry_plan`.
pub fn retry_delay(status: Option<u16>, retry_after: Option<&str>, num_tries: u32) -> (r: Option<
    (u64, u32),
>)
    ensures
        match retry_plan(status, optional_chars(retry_after), num_tries as int) {
            Some((secs, tries)) => r == Some((secs as u64, tries as u32)) && 0 <= secs <= u64::MAX
                && 0 <= tries <= u32::MAX,
            None => r is None,
        },
{
    let code = match status {
        Some(code) => code,
        None => return None,
    };
    if code != TOO_MANY_REQUESTS || num_tries > MAX_BACKOFF_TRIES {
        return None;
    }
    let requested = match retry_after {
        Some(value) => parse_u64(value),
        None => None,
    };
    match requested {
        Some(secs) => Some((secs, num_tries)),
        None => Some((backoff_seconds(num_tries), num_tries + 1)),
    }
}

/// Without a usable `retry-after` header every retry of a too-many-requests
/// answer spends a try, and no retry is made once `MAX_BACKOFF_TRIES + 1`
/// tries were spent: a request is retried at most six times.
pub proof fn backoff_is_bounded(retry_after: Option<Seq<char>>, num_tries: int)
    requires
        requested_delay(TOO_MANY_REQUESTS, retry_after) is None,
        num_tries >= 0,
    ensures
        retry_plan(Some(TOO_MANY_REQUESTS), retry_after, num_tries) matches Some((secs, tries))
            ==> tries == num_tries + 1 && tries <= MAX_BACKOFF_TRIES + 1 && secs == power_of_two(
            num_tries as nat,
        ),
        retry_plan(Some(TOO_MANY_REQUESTS), retry_after, num_tries) is None <==> num_tries
            > MAX_BACKOFF_TRIES,
{
}

/// Only too-many-requests answers are retried: any other error, with a
/// status or without one, is handed on at once.
pub proof fn only_too_many_requests_are_retried(status: Option<u16>, retry_after: Option<Seq<char>>, num_tries: int)
    requires
        status != Some(TOO_MANY_REQUESTS),
    ensures
        retry_plan(status, retry_after, num_tries) is None,
{
}

/// A too-many-requests answer whose `retry-after` header reads as an
/// unsigned number `n` is waited out for exactly `n` seconds, however long
/// that is, and spends no backoff try.
pub proof fn requested_delay_is_waited_out(retry_after: Seq<char>, n: int, num_tries: int)
    requires
        0 <= num_tries <= MAX_BACKOFF_TRIES,
        parsed_unsigned(retry_after, u64::MAX as int) == Some(n),
    ensures
        retry_plan(Some(TOO_MANY_REQUESTS), Some(retry_after), num_tries) == Some((n, num_tries)),
{
}

/// Each backoff waits twice as long as the one before.
pub proof fn backoff_doubles(n: nat)
    ensures
        power_of_two(n + 1) == 2 * power_of_two(n),
{
}

/// After a page of `items` entries at `offset`: the offset of the next page,
/// and whether this was the last page (no next page, or an empty one).
pub fn page_advance(offset: u32, items: usize, has_next: bool) -> (r: (u32, bool))
    requires
        offset + items <= u32::MAX,
    ensures
        r.0 == offset + items,
        r.1 == (!has_next || items == 0),
{
    (offset + items as u32, !has_next || items == 0)
}

} // verus!
