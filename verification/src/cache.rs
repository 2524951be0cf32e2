//! Decisions of the disk-backed caches: serve what is stored, refresh it in
//! the background, fetch it right away, or wait for another caller.
//! Instants and intervals are in nanoseconds.
use vstd::prelude::*;
use crate::text::{chars_of, string_from_chars};

verus! {

/// What a cache lookup does.
#[derive(Debug, Clone, Copy, PartialEq, Eq, Structural)]
pub enum CacheAction {
    /// Hand out the stored value.
    ServeCached,
    /// Hand out the stored value and refresh it in the background.
    ServeCachedAndRefresh,
    /// Nothing is stored: fetch the value and hand it out once it arrives.
    FetchNow,
    /// Nothing is stored and another caller is fetching it: wait for it.
    AwaitOther,
}

/// A value fetched at `last_fetched` is due for a refresh at `now`.
pub open spec fn is_stale(last_fetched: i128, now: i128, interval: i128) -> bool {
    now > last_fetched + interval
}

/// The action for a lookup at `now`: `cached` is when the stored value was
/// fetched, if one is stored, and `claimed` whether this caller won the
/// right to update the value.
pub open spec fn cache_action_for(
    cached: Option<i128>,
    claimed: bool,
    now: i128,
    interval: i128,
) -> CacheAction {
    match cached {
        Some(last_fetched) => if claimed && is_stale(last_fetched, now, interval) {
            CacheAction::ServeCachedAndRefresh
        } else {
            CacheAction::ServeCached
        },
        None => if claimed {
            CacheAction::FetchNow
        } else {
            CacheAction::AwaitOther
        },
    }
}

/// The action for a cache lookup; see `cache_action_for`.
pub fn cache_action(cached: Option<i128>, claimed: bool, now: i128, interval: i128) -> (a: CacheAction)
    requires
        cached matches Some(last_fetched) ==> i128::MIN <= last_fetched + interval <= i128::MAX,
    ensures
        a == cache_action_for(cached, claimed, now, interval),
{
    match cached {
        Some(last_fetched) => {
            if claimed && now > last_fetched + interval {
                CacheAction::ServeCachedAndRefresh
            } else {
                CacheAction::ServeCached
            }
        },
        None => {
            if claimed {
                CacheAction::FetchNow
            } else {
                CacheAction::AwaitOther
            }
        },
    }
}

/// Only the caller that claimed the update fetches, a stored value is
/// always handed out at once, and a caller waits only while nothing is
/// stored.
pub proof fn cache_lookup_laws(cached: Option<i128>, claimed: bool, now: i128, interval: i128)
    ensures
        (cache_action_for(cached, claimed, now, interval) == CacheAction::FetchNow
            || cache_action_for(cached, claimed, now, interval) == CacheAction::ServeCachedAndRefresh)
            ==> claimed,
        cached is Some ==> (cache_action_for(cached, claimed, now, interval)
            == CacheAction::ServeCached || cache_action_for(cached, claimed, now, interval)
            == CacheAction::ServeCachedAndRefresh),
        cache_action_for(cached, claimed, now, interval) == CacheAction::AwaitOther <==> (cached is None
            && !claimed),
        cached matches Some(t) ==> (!is_stale(t, now, interval) ==> cache_action_for(
            cached,
            claimed,
            now,
            interval,
        ) == CacheAction::ServeCached),
{
}

/// A stored value fetched at `t` is refreshed by the caller that claimed
/// the update as soon as `now` lies past `t + interval`, however long ago
/// that is, and only then.
pub proof fn stale_value_is_refreshed(t: i128, claimed: bool, now: i128, interval: i128)
    ensures
        cache_action_for(Some(t), claimed, now, interval) == CacheAction::ServeCachedAndRefresh <==> (
        claimed && now > t + interval),
{
}

/// Where a cache keeps its value, relative to the home directory:
/// `.cache/dash/{name}.json` for a single value, `.cache/dash/{name}/{key}.json`
/// for the value of `key`.
pub open spec fn cache_file_text(name: Seq<char>, key: Option<Seq<char>>) -> Seq<char> {
    let dir = seq!['.', 'c', 'a', 'c', 'h', 'e', '/', 'd', 'a', 's', 'h', '/'];
    let json = seq!['.', 'j', 's', 'o', 'n'];
    match key {
        None => dir + name + json,
        Some(k) => dir + name + seq!['/'] + k + json,
    }
}

/// Appends the characters of `s`.
fn push_str_chars(out: &mut Vec<char>, s: &Vec<char>)
    ensures
        final(out)@ == old(out)@ + s@,
{
    let mut i: usize = 0;
    while i < s.len()
        invariant
            i <= s@.len(),
            out@ == old(out)@ + s@.take(i as int),
        decreases s@.len() - i,
    {
        out.push(s[i]);
        proof {
            assert(s@.take(i + 1) =~= s@.take(i as int).push(s@[i as int]));
        }
        i = i + 1;
    }
    assert(s@.take(s@.len() as int) =~= s@);
}

/// The cache file of the cache `name` (and `key`), relative to the home
/// directory.
pub fn cache_file_name(name: &str, key: Option<&str>) -> (path: String)
    ensures
        path@ == cache_file_text(
            name@,
            match key {
                Some(k) => Some(k@),
                None => None,
            },
        ),
{
    let dir = vec!['.', 'c', 'a', 'c', 'h', 'e', '/', 'd', 'a', 's', 'h', '/'];
    let json = vec!['.', 'j', 's', 'o', 'n'];
    let mut out: Vec<char> = Vec::new();
    push_str_chars(&mut out, &dir);
    push_str_chars(&mut out, &chars_of(name));
    match key {
        Some(k) => {
            out.push('/');
            push_str_chars(&mut out, &chars_of(k));
        },
        None => {},
    }
    push_str_chars(&mut out, &json);
    proof {
        assert(dir@ =~= seq!['.', 'c', 'a', 'c', 'h', 'e', '/', 'd', 'a', 's', 'h', '/']);
        assert(json@ =~= seq!['.', 'j', 's', 'o', 'n']);
        match key {
            Some(k) => {
                assert(out@ =~= cache_file_text(name@, Some(k@)));
            },
            None => {
                assert(out@ =~= cache_file_text(name@, None));
            },
        }
    }
    string_from_chars(&out)
}

} // verus!
