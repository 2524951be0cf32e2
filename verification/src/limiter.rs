//! Per-endpoint account leasing for the Spotify Web API.
//!
//! Every Spotify endpoint has its own pool of interchangeable accounts. An
//! account can be leased by one request at a time, and an account that was
//! answered with "too many requests" cools down until a given instant. Leases
//! are handed out round robin. Instants are ticks of a monotonic clock.
use vstd::prelude::*;

verus! {

/// The Spotify (and last.fm) endpoints that are rate limited separately.
#[derive(Debug, Clone, Copy, PartialEq, Eq, Structural)]
pub enum Endpoint {
    MyPlaylists,
    Playlists,
    SavedTracks,
    Player,
    Tracks,
    Artists,
    Me,
    LastFmTopTags,
}

/// Number of distinct endpoints, and so of account pools.
pub const ENDPOINT_COUNT: usize = 8;

impl Endpoint {
    /// The position of the endpoint's pool.
    pub open spec fn position(self) -> nat {
        match self {
            Endpoint::MyPlaylists => 0,
            Endpoint::Playlists => 1,
            Endpoint::SavedTracks => 2,
            Endpoint::Player => 3,
            Endpoint::Tracks => 4,
            Endpoint::Artists => 5,
            Endpoint::Me => 6,
            Endpoint::LastFmTopTags => 7,
        }
    }

    /// The index of the endpoint's pool among the `ENDPOINT_COUNT` pools.
    pub fn index(self) -> (i: usize)
        ensures
            i == self.position(),
            i < ENDPOINT_COUNT,
    {
        match self {
            Endpoint::MyPlaylists => 0,
            Endpoint::Playlists => 1,
            Endpoint::SavedTracks => 2,
            Endpoint::Player => 3,
            Endpoint::Tracks => 4,
            Endpoint::Artists => 5,
            Endpoint::Me => 6,
            Endpoint::LastFmTopTags => 7,
        }
    }
}

/// Distinct endpoints use distinct pools.
pub proof fn endpoint_index_is_injective(a: Endpoint, b: Endpoint)
    ensures
        a.position() == b.position() ==> a == b,
{
}

/// Why a pool could not be made.
#[derive(Debug, Clone, Copy, PartialEq, Eq, Structural)]
pub enum LimiterError {
    /// A pool needs at least one account.
    NoAccounts,
}

/// The abstract state of a pool: where the round robin continues, until
/// when each account cools down, and which accounts are leased.
pub struct PoolState {
    pub next: int,
    pub cooldowns: Seq<Option<u64>>,
    pub leased: Seq<bool>,
}

impl PoolState {
    pub open spec fn account_count(self) -> int {
        self.leased.len() as int
    }

    pub open spec fn wf(self) -> bool {
        &&& self.leased.len() > 0
        &&& self.cooldowns.len() == self.leased.len()
        &&& 0 <= self.next < self.account_count()
    }

    /// The account may not be used before a later instant than `now`.
    pub open spec fn cooling(self, account: int, now: u64) -> bool {
        self.cooldowns[account] matches Some(until) && until > now
    }

    /// The account is free to be leased at `now`.
    pub open spec fn available(self, account: int, now: u64) -> bool {
        !self.cooling(account, now) && !self.leased[account]
    }

    /// How many steps after `next` the round robin reaches `account`.
    pub open spec fn rank(self, account: int) -> int {
        if account >= self.next {
            account - self.next
        } else {
            account + self.account_count() - self.next
        }
    }

    /// The cooldown entry once an inspection has forgotten an expired cooldown.
    pub open spec fn refreshed(self, account: int, now: u64) -> Option<u64> {
        if self.cooling(account, now) {
            self.cooldowns[account]
        } else {
            None
        }
    }

    /// The account that follows `account` in the round robin.
    pub open spec fn successor(self, account: int) -> int {
        if account + 1 < self.account_count() {
            account + 1
        } else {
            0
        }
    }

    /// `post` and `result` are what an acquisition at `now` gives from `self`:
    /// the first available account in round-robin order, starting at `next`,
    /// is leased and the round robin continues after it; every account that
    /// was inspected on the way forgets an expired cooldown.
    pub open spec fn acquired(self, now: u64, post: PoolState, result: Option<usize>) -> bool {
        &&& post.leased.len() == self.leased.len()
        &&& post.cooldowns.len() == self.cooldowns.len()
        &&& match result {
            Some(a) => {
                &&& 0 <= a < self.account_count()
                &&& self.available(a as int, now)
                &&& forall|i: int|
                    0 <= i < self.account_count() && #[trigger] self.rank(i) < self.rank(a as int)
                        ==> !self.available(i, now)
                &&& post.leased == self.leased.update(a as int, true)
                &&& post.next == self.successor(a as int)
                &&& forall|i: int|
                    0 <= i < self.account_count() ==> #[trigger] post.cooldowns[i] == if self.rank(i)
                        <= self.rank(a as int) {
                        self.refreshed(i, now)
                    } else {
                        self.cooldowns[i]
                    }
            },
            None => {
                &&& forall|i: int| 0 <= i < self.account_count() ==> !#[trigger] self.available(i, now)
                &&& post.leased == self.leased
                &&& post.next == self.next
                &&& forall|i: int|
                    0 <= i < self.account_count() ==> #[trigger] post.cooldowns[i] == self.refreshed(i, now)
            },
        }
    }

    /// `post` and `result` are what asking for the next wake-up at `now`
    /// gives from `self`: expired cooldowns are forgotten and the result is
    /// the earliest remaining one.
    pub open spec fn woken(self, now: u64, post: PoolState, result: Option<u64>) -> bool {
        &&& post.next == self.next
        &&& post.leased == self.leased
        &&& post.cooldowns.len() == self.cooldowns.len()
        &&& forall|i: int|
            0 <= i < self.account_count() ==> #[trigger] post.cooldowns[i] == self.refreshed(i, now)
        &&& match result {
            Some(w) => {
                &&& exists|i: int| 0 <= i < self.account_count() && #[trigger] post.cooldowns[i] == Some(w)
                &&& forall|i: int|
                    0 <= i < self.account_count() ==> (#[trigger] post.cooldowns[i] matches Some(u) ==> w <= u)
            },
            None => forall|i: int| 0 <= i < self.account_count() ==> #[trigger] post.cooldowns[i] is None,
        }
    }
}

/// The accounts of one endpoint.
pub struct EndpointPool {
    next_account: usize,
    unavailable_until: Vec<Option<u64>>,
    leased: Vec<bool>,
}

impl View for EndpointPool {
    type V = PoolState;

    closed spec fn view(&self) -> PoolState {
        PoolState {
            next: self.next_account as int,
            cooldowns: self.unavailable_until@,
            leased: self.leased@,
        }
    }
}

impl EndpointPool {
    /// A pool of `account_count` accounts, none leased or cooling down, whose
    /// round robin starts at the first account.
    pub fn new(account_count: usize) -> (result: Result<EndpointPool, LimiterError>)
        ensures
            account_count == 0 <==> result is Err,
            result matches Ok(pool) ==> {
                &&& pool@.wf()
                &&& pool@.account_count() == account_count
                &&& pool@.next == 0
                &&& forall|i: int| 0 <= i < account_count ==> !#[trigger] pool@.leased[i]
                &&& forall|i: int| 0 <= i < account_count ==> #[trigger] pool@.cooldowns[i] is None
            },
            result matches Err(e) ==> e == LimiterError::NoAccounts,
    {
        if account_count == 0 {
            return Err(LimiterError::NoAccounts);
        }
        let mut unavailable_until: Vec<Option<u64>> = Vec::new();
        let mut leased: Vec<bool> = Vec::new();
        let mut i: usize = 0;
        while i < account_count
            invariant
                i <= account_count,
                unavailable_until@.len() == i,
                leased@.len() == i,
                forall|j: int| 0 <= j < i ==> !#[trigger] leased@[j],
                forall|j: int| 0 <= j < i ==> #[trigger] unavailable_until@[j] is None,
            decreases account_count - i,
        {
            unavailable_until.push(None);
            leased.push(false);
            i = i + 1;
        }
        Ok(EndpointPool { next_account: 0, unavailable_until, leased })
    }

    /// Number of accounts in the pool.
    pub fn account_count(&self) -> (n: usize)
        requires
            self@.wf(),
        ensures
            n == self@.account_count(),
    {
        self.leased.len()
    }

    /// Leases the first available account at `now`, in round-robin order
    /// starting where the previous lease left off, and forgets the expired
    /// cooldowns it comes across. `None` when every account is leased or
    /// cooling down.
    pub fn try_acquire(&mut self, now: u64) -> (result: Option<usize>)
        requires
            old(self)@.wf(),
        ensures
            final(self)@.wf(),
            old(self)@.acquired(now, final(self)@, result),
    {
        let ghost pre = self@;
        let n = self.leased.len();
        let next = self.next_account;
        let mut offset: usize = 0;
        while offset < n
            invariant
                pre == old(self)@,
                pre.wf(),
                n == pre.account_count(),
                next == pre.next,
                offset <= n,
                self@.next == pre.next,
                self@.leased == pre.leased,
                self@.cooldowns.len() == pre.cooldowns.len(),
                forall|i: int| 0 <= i < n && #[trigger] pre.rank(i) < offset ==> !pre.available(i, now),
                forall|i: int|
                    0 <= i < n ==> #[trigger] self@.cooldowns[i] == if pre.rank(i) < offset {
                        pre.refreshed(i, now)
                    } else {
                        pre.cooldowns[i]
                    },
            decreases n - offset,
        {
            let account = if offset < n - next {
                next + offset
            } else {
                offset - (n - next)
            };
            assert(pre.rank(account as int) == offset);
            let cooling = match self.unavailable_until[account] {
                Some(until) => until > now,
                None => false,
            };
            if !cooling {
                self.unavailable_until[account] = None;
                if !self.leased[account] {
                    self.leased[account] = true;
                    self.next_account = if account + 1 < n {
                        account + 1
                    } else {
                        0
                    };
                    assert forall|i: int|
                        0 <= i < n && #[trigger] pre.rank(i) < pre.rank(account as int) implies
                        !pre.available(i, now) by {}
                    assert forall|i: int| 0 <= i < n implies #[trigger] self@.cooldowns[i] == if pre.rank(i)
                        <= pre.rank(account as int) {
                        pre.refreshed(i, now)
                    } else {
                        pre.cooldowns[i]
                    } by {
                        if i != account {
                            assert(pre.rank(i) != pre.rank(account as int));
                        }
                    }
                    return Some(account);
                }
            }
            offset = offset + 1;
        }
        assert forall|i: int| 0 <= i < n implies !#[trigger] pre.available(i, now) by {
            assert(pre.rank(i) < offset);
        }
        assert forall|i: int| 0 <= i < n implies #[trigger] self@.cooldowns[i] == pre.refreshed(i, now) by {
            assert(pre.rank(i) < offset);
        }
        None
    }

    /// Forgets the cooldowns that ended at or before `now` and returns the
    /// earliest one that is still running, if any.
    pub fn next_wakeup(&mut self, now: u64) -> (result: Option<u64>)
        requires
            old(self)@.wf(),
        ensures
            final(self)@.wf(),
            old(self)@.woken(now, final(self)@, result),
    {
        let ghost pre = self@;
        let n = self.unavailable_until.len();
        let mut earliest: Option<u64> = None;
        let ghost mut witness: int = 0;
        let mut i: usize = 0;
        while i < n
            invariant
                pre.wf(),
                n == pre.account_count(),
                i <= n,
                self@.next == pre.next,
                self@.leased == pre.leased,
                self@.cooldowns.len() == pre.cooldowns.len(),
                forall|j: int|
                    0 <= j < n ==> #[trigger] self@.cooldowns[j] == if j < i {
                        pre.refreshed(j, now)
                    } else {
                        pre.cooldowns[j]
                    },
                match earliest {
                    Some(w) => {
                        &&& 0 <= witness < i && self@.cooldowns[witness] == Some(w)
                        &&& forall|j: int|
                            0 <= j < i ==> (#[trigger] self@.cooldowns[j] matches Some(u) ==> w <= u)
                    },
                    None => forall|j: int| 0 <= j < i ==> #[trigger] self@.cooldowns[j] is None,
                },
            decreases n - i,
        {
            match self.unavailable_until[i] {
                Some(until) => {
                    if until <= now {
                        self.unavailable_until[i] = None;
                    } else {
                        match earliest {
                            Some(w) => {
                                if until < w {
                                    earliest = Some(until);
                                    proof {
                                        witness = i as int;
                                    }
                                }
                            },
                            None => {
                                earliest = Some(until);
                                proof {
                                    witness = i as int;
                                }
                            },
                        }
                    }
                },
                None => {},
            }
            i = i + 1;
        }
        earliest
    }

    /// The leased `account` was answered with "too many requests": it cools
    /// down until `now + retry_after`, and its lease ends.
    pub fn rate_limited(&mut self, account: usize, now: u64, retry_after: u64)
        requires
            old(self)@.wf(),
            account < old(self)@.account_count(),
            now + retry_after <= u64::MAX,
        ensures
            final(self)@.wf(),
            final(self)@.next == old(self)@.next,
            final(self)@.cooldowns == old(self)@.cooldowns.update(
                account as int,
                Some((now + retry_after) as u64),
            ),
            final(self)@.leased == old(self)@.leased.update(account as int, false),
    {
        self.unavailable_until[account] = Some(now + retry_after);
        self.leased[account] = false;
    }

    /// The lease of `account` ends.
    pub fn release(&mut self, account: usize)
        requires
            old(self)@.wf(),
            account < old(self)@.account_count(),
        ensures
            final(self)@.wf(),
            final(self)@.next == old(self)@.next,
            final(self)@.cooldowns == old(self)@.cooldowns,
            final(self)@.leased == old(self)@.leased.update(account as int, false),
    {
        self.leased[account] = false;
    }
}

/// Round robin: when every account is free, the lease goes to the account
/// where the previous lease left off, and the next one continues after it.
pub proof fn round_robin_when_all_free(pool: PoolState, now: u64, post: PoolState, result: Option<usize>)
    requires
        pool.wf(),
        forall|i: int| 0 <= i < pool.account_count() ==> #[trigger] pool.available(i, now),
        pool.acquired(now, post, result),
    ensures
        result == Some(pool.next as usize),
        post.next == pool.successor(pool.next),
{
    assert(pool.available(pool.next, now));
    match result {
        Some(a) => {
            if a != pool.next {
                assert(pool.rank(pool.next) == 0);
            }
        },
        None => {},
    }
}

/// A leased account is not leased again before its lease ends.
pub proof fn leased_account_is_exclusive(
    pool: PoolState,
    now: u64,
    mid: PoolState,
    a: usize,
    later: u64,
    post: PoolState,
    result: Option<usize>,
)
    requires
        pool.wf(),
        pool.acquired(now, mid, Some(a)),
        mid.acquired(later, post, result),
    ensures
        result != Some(a),
{
    assert(mid.leased[a as int]);
}

/// An account that cools down until `until` is not leased before then.
pub proof fn cooling_account_is_skipped(
    pool: PoolState,
    a: usize,
    until: u64,
    now: u64,
    post: PoolState,
    result: Option<usize>,
)
    requires
        pool.wf(),
        a < pool.account_count(),
        pool.cooldowns[a as int] == Some(until),
        now < until,
        pool.acquired(now, post, result),
    ensures
        result != Some(a),
        post.cooldowns[a as int] == Some(until),
{
    assert(pool.cooling(a as int, now));
    assert(post.cooldowns[a as int] == Some(until));
}

/// An acquisition fails only when no account is free, and forgetting
/// expired cooldowns never frees an account that is still cooling down.
pub proof fn acquisition_fails_only_when_all_busy(
    pool: PoolState,
    now: u64,
    post: PoolState,
    result: Option<usize>,
)
    requires
        pool.wf(),
        pool.acquired(now, post, result),
    ensures
        result is None <==> forall|i: int| 0 <= i < pool.account_count() ==> !#[trigger] pool.available(i, now),
        forall|i: int| 0 <= i < pool.account_count() ==> (#[trigger] post.cooling(i, now) <==> pool.cooling(i, now)),
{
    assert forall|i: int| 0 <= i < pool.account_count() implies (#[trigger] post.cooling(i, now) <==> pool.cooling(i, now)) by {
        match result {
            Some(a) => {
                if pool.rank(i) <= pool.rank(a as int) {
                    assert(post.cooldowns[i] == pool.refreshed(i, now));
                } else {
                    assert(post.cooldowns[i] == pool.cooldowns[i]);
                }
            },
            None => {
                assert(post.cooldowns[i] == pool.refreshed(i, now));
            },
        }
    }
}

/// Once a lease ends, an acquisition succeeds unless the account is cooling
/// down.
pub proof fn released_account_can_be_leased(
    pool: PoolState,
    a: usize,
    released: PoolState,
    now: u64,
    post: PoolState,
    result: Option<usize>,
)
    requires
        pool.wf(),
        a < pool.account_count(),
        released.next == pool.next,
        released.cooldowns == pool.cooldowns,
        released.leased == pool.leased.update(a as int, false),
        !released.cooling(a as int, now),
        released.acquired(now, post, result),
    ensures
        result is Some,
{
    assert(released.available(a as int, now));
}

/// A wake-up instant lies after `now`, and without one no account is
/// cooling down: only a released lease can then free an account.
pub proof fn wakeup_is_in_the_future(pool: PoolState, now: u64, post: PoolState, result: Option<u64>)
    requires
        pool.wf(),
        pool.woken(now, post, result),
    ensures
        result matches Some(w) ==> w > now,
        result is None ==> forall|i: int, t: u64| 0 <= i < pool.account_count() ==> !#[trigger] post.cooling(i, t),
        forall|i: int| 0 <= i < pool.account_count() ==> (#[trigger] post.cooling(i, now) <==> pool.cooling(i, now)),
{
    match result {
        Some(w) => {
            let i = choose|i: int| 0 <= i < pool.account_count() && #[trigger] post.cooldowns[i] == Some(w);
            assert(post.cooldowns[i] == pool.refreshed(i, now));
        },
        None => {
            assert forall|i: int, t: u64| 0 <= i < pool.account_count() implies !#[trigger] post.cooling(i, t) by {
                assert(post.cooldowns[i] is None);
            }
        },
    }
    assert forall|i: int| 0 <= i < pool.account_count() implies (#[trigger] post.cooling(i, now) <==> pool.cooling(i, now)) by {
        assert(post.cooldowns[i] == pool.refreshed(i, now));
    }
}

/// A call on one pool. A lease is named by the position, in the run, of the
/// acquisition that handed it out; releasing it and reporting it rate limited
/// both end it.
pub enum PoolCall {
    /// `try_acquire` at the instant.
    Acquire(u64),
    /// `next_wakeup` at the instant.
    NextWakeup(u64),
    /// `release` of the lease.
    Release(int),
    /// `rate_limited` of the lease, at the instant, with the delay asked for.
    RateLimited(int, u64, u64),
}

/// Whether the call ends the lease `j`.
pub open spec fn ends_lease(call: PoolCall, j: int) -> bool {
    match call {
        PoolCall::Release(l) => l == j,
        PoolCall::RateLimited(l, _, _) => l == j,
        _ => false,
    }
}

/// The account of the lease handed out by call `j`.
pub open spec fn lease_account(results: Seq<Option<usize>>, j: int) -> int {
    match results[j] {
        Some(a) => a as int,
        None => -1,
    }
}

/// Whether the lease handed out by call `j` is still held before call `k`.
pub open spec fn lease_live(calls: Seq<PoolCall>, results: Seq<Option<usize>>, j: int, k: int) -> bool {
    &&& 0 <= j < k
    &&& calls[j] is Acquire
    &&& results[j] is Some
    &&& forall|m: int| j < m < k ==> !ends_lease(#[trigger] calls[m], j)
}

/// The instant a call is made at, for those that take one.
pub open spec fn call_time(call: PoolCall) -> Option<u64> {
    match call {
        PoolCall::Acquire(now) => Some(now),
        PoolCall::NextWakeup(now) => Some(now),
        PoolCall::RateLimited(_, now, _) => Some(now),
        PoolCall::Release(_) => None,
    }
}

/// `post` and `result` are what `call` gives from `pre`, as the pool's
/// methods state it.
pub open spec fn call_step(
    pre: PoolState,
    call: PoolCall,
    post: PoolState,
    result: Option<usize>,
    results: Seq<Option<usize>>,
) -> bool {
    match call {
        PoolCall::Acquire(now) => pre.acquired(now, post, result),
        PoolCall::NextWakeup(now) => exists|w: Option<u64>| pre.woken(now, post, w),
        PoolCall::Release(j) => {
            &&& post.next == pre.next
            &&& post.cooldowns == pre.cooldowns
            &&& post.leased == pre.leased.update(lease_account(results, j), false)
        },
        PoolCall::RateLimited(j, now, retry_after) => {
            &&& now + retry_after <= u64::MAX
            &&& post.next == pre.next
            &&& post.cooldowns == pre.cooldowns.update(
                lease_account(results, j),
                Some((now + retry_after) as u64),
            )
            &&& post.leased == pre.leased.update(lease_account(results, j), false)
        },
    }
}

/// A run of `calls` on a pool made without leases: `states[k]` is the pool
/// before call `k` and `results[k]` what an acquisition `k` returned. Only
/// leases that are held are ended, and instants never go back.
pub open spec fn pool_run(states: Seq<PoolState>, calls: Seq<PoolCall>, results: Seq<Option<usize>>) -> bool {
    &&& states.len() == calls.len() + 1
    &&& results.len() == calls.len()
    &&& forall|k: int| 0 <= k <= calls.len() ==> #[trigger] states[k].wf()
    &&& forall|i: int| 0 <= i < states[0].account_count() ==> !#[trigger] states[0].leased[i]
    &&& forall|k: int|
        0 <= k < calls.len() ==> call_step(states[k], #[trigger] calls[k], states[k + 1], results[k], results)
    &&& forall|k: int, j: int|
        0 <= k < calls.len() && #[trigger] ends_lease(calls[k], j) ==> lease_live(calls, results, j, k)
    &&& forall|m: int, k: int|
        0 <= m < k < calls.len() ==> (#[trigger] call_time(calls[m]) matches Some(a) ==> (
        #[trigger] call_time(calls[k]) matches Some(b) ==> a <= b))
}

/// Some call after `m` and before `k` is made at or after `until`.
pub open spec fn time_reached(calls: Seq<PoolCall>, m: int, k: int, until: int) -> bool {
    exists|p: int| m < p < k && (#[trigger] call_time(calls[p]) matches Some(t) && t >= until)
}

/// What holds before call `k` of a run on `n` accounts.
spec fn run_invariant(
    states: Seq<PoolState>,
    calls: Seq<PoolCall>,
    results: Seq<Option<usize>>,
    n: int,
    k: int,
) -> bool {
    &&& states[k].account_count() == n
    &&& forall|j: int|
        0 <= j < k && #[trigger] calls[j] is Acquire && results[j] is Some ==> 0 <= lease_account(
            results,
            j,
        ) < n
    &&& forall|j: int| #[trigger] lease_live(calls, results, j, k) ==> states[k].leased[lease_account(results, j)]
    &&& forall|j1: int, j2: int|
        #[trigger] lease_live(calls, results, j1, k) && #[trigger] lease_live(calls, results, j2, k) && j1
            != j2 ==> lease_account(results, j1) != lease_account(results, j2)
    &&& forall|m: int|
        0 <= m < k ==> (#[trigger] calls[m] matches PoolCall::RateLimited(j, t, ra) ==> (
        states[k].cooldowns[lease_account(results, j)] == Some((t + ra) as u64) || time_reached(
            calls,
            m,
            k,
            t + ra,
        )))
}

proof fn lemma_run_invariant(states: Seq<PoolState>, calls: Seq<PoolCall>, results: Seq<Option<usize>>, k: int)
    requires
        pool_run(states, calls, results),
        0 <= k <= calls.len(),
    ensures
        run_invariant(states, calls, results, states[0].account_count(), k),
    decreases k,
{
    let n = states[0].account_count();
    if k == 0 {
        return;
    }
    let c = k - 1;
    lemma_run_invariant(states, calls, results, c);
    let pre = states[c];
    let post = states[k];
    assert(states[c].wf() && states[k].wf());
    assert(call_step(pre, calls[c], post, results[c], results));
    // Which leases are held before call `k`.
    assert forall|j: int| #[trigger] lease_live(calls, results, j, k) implies (j == c && calls[c] is Acquire
        && results[c] is Some) || (lease_live(calls, results, j, c) && !ends_lease(calls[c], j)) by {
        if j < c {
            assert forall|m: int| j < m < c implies !ends_lease(#[trigger] calls[m], j) by {
                assert(!ends_lease(calls[m], j));
            }
        }
    }
    match calls[c] {
        PoolCall::Acquire(now) => {
            match results[c] {
                Some(a) => {
                    assert(pre.available(a as int, now));
                    assert forall|j: int| #[trigger] lease_live(calls, results, j, k) implies post.leased[lease_account(
                        results,
                        j,
                    )] by {
                        if j != c {
                            assert(lease_live(calls, results, j, c));
                        }
                    }
                    assert forall|j1: int, j2: int|
                        #[trigger] lease_live(calls, results, j1, k) && #[trigger] lease_live(calls, results, j2, k)
                            && j1 != j2 implies lease_account(results, j1) != lease_account(results, j2) by {
                        if j1 != c && j2 != c {
                            assert(lease_live(calls, results, j1, c));
                            assert(lease_live(calls, results, j2, c));
                        } else if j1 == c {
                            assert(lease_live(calls, results, j2, c));
                            assert(pre.leased[lease_account(results, j2)]);
                        } else {
                            assert(lease_live(calls, results, j1, c));
                            assert(pre.leased[lease_account(results, j1)]);
                        }
                    }
                },
                None => {
                    assert forall|j: int| #[trigger] lease_live(calls, results, j, k) implies lease_live(
                        calls,
                        results,
                        j,
                        c,
                    ) by {}
                },
            }
            assert forall|m: int| 0 <= m < k implies (#[trigger] calls[m] matches PoolCall::RateLimited(j, t, ra)
                ==> (post.cooldowns[lease_account(results, j)] == Some((t + ra) as u64) || time_reached(
                calls,
                m,
                k,
                t + ra,
            ))) by {
                if let PoolCall::RateLimited(j, t, ra) = calls[m] {
                    let a = lease_account(results, j);
                    assert(ends_lease(calls[m], j));
                    assert(lease_live(calls, results, j, m));
                    assert(0 <= a < n);
                    if time_reached(calls, m, c, t + ra) {
                        let p = choose|p: int| m < p < c && (#[trigger] call_time(calls[p]) matches Some(tt) && tt
                            >= t + ra);
                        assert(call_time(calls[p]) matches Some(tt) && tt >= t + ra);
                    } else if post.cooldowns[a] != Some((t + ra) as u64) {
                        assert(pre.cooldowns[a] == Some((t + ra) as u64));
                        assert(!pre.cooling(a, now));
                        assert(call_time(calls[c]) matches Some(tt) && tt >= t + ra);
                    }
                }
            }
        },
        PoolCall::NextWakeup(now) => {
            let w = choose|w: Option<u64>| pre.woken(now, post, w);
            assert(pre.woken(now, post, w));
            assert forall|j: int| #[trigger] lease_live(calls, results, j, k) implies lease_live(
                calls,
                results,
                j,
                c,
            ) by {}
            assert forall|m: int| 0 <= m < k implies (#[trigger] calls[m] matches PoolCall::RateLimited(j, t, ra)
                ==> (post.cooldowns[lease_account(results, j)] == Some((t + ra) as u64) || time_reached(
                calls,
                m,
                k,
                t + ra,
            ))) by {
                if let PoolCall::RateLimited(j, t, ra) = calls[m] {
                    let a = lease_account(results, j);
                    assert(ends_lease(calls[m], j));
                    assert(lease_live(calls, results, j, m));
                    assert(0 <= a < n);
                    if time_reached(calls, m, c, t + ra) {
                        let p = choose|p: int| m < p < c && (#[trigger] call_time(calls[p]) matches Some(tt) && tt
                            >= t + ra);
                        assert(call_time(calls[p]) matches Some(tt) && tt >= t + ra);
                    } else if post.cooldowns[a] != Some((t + ra) as u64) {
                        assert(post.cooldowns[a] == pre.refreshed(a, now));
                        assert(call_time(calls[c]) matches Some(tt) && tt >= t + ra);
                    }
                }
            }
        },
        PoolCall::Release(l) => {
            assert(ends_lease(calls[c], l));
            assert(lease_live(calls, results, l, c));
            assert forall|j: int| #[trigger] lease_live(calls, results, j, k) implies post.leased[lease_account(
                results,
                j,
            )] by {
                assert(lease_live(calls, results, j, c));
                assert(j != l);
            }
            assert forall|m: int| 0 <= m < k implies (#[trigger] calls[m] matches PoolCall::RateLimited(j, t, ra)
                ==> (post.cooldowns[lease_account(results, j)] == Some((t + ra) as u64) || time_reached(
                calls,
                m,
                k,
                t + ra,
            ))) by {
                if let PoolCall::RateLimited(j, t, ra) = calls[m] {
                    if time_reached(calls, m, c, t + ra) {
                        let p = choose|p: int| m < p < c && (#[trigger] call_time(calls[p]) matches Some(tt) && tt
                            >= t + ra);
                        assert(call_time(calls[p]) matches Some(tt) && tt >= t + ra);
                    }
                }
            }
        },
        PoolCall::RateLimited(l, now, retry_after) => {
            let a2 = lease_account(results, l);
            assert(ends_lease(calls[c], l));
            assert(lease_live(calls, results, l, c));
            assert forall|j: int| #[trigger] lease_live(calls, results, j, k) implies post.leased[lease_account(
                results,
                j,
            )] by {
                assert(lease_live(calls, results, j, c));
                assert(j != l);
            }
            assert forall|m: int| 0 <= m < k implies (#[trigger] calls[m] matches PoolCall::RateLimited(j, t, ra)
                ==> (post.cooldowns[lease_account(results, j)] == Some((t + ra) as u64) || time_reached(
                calls,
                m,
                k,
                t + ra,
            ))) by {
                if let PoolCall::RateLimited(j, t, ra) = calls[m] {
                    let a = lease_account(results, j);
                    if m < c {
                        assert(ends_lease(calls[m], j));
                        assert(lease_live(calls, results, j, m));
                        if time_reached(calls, m, c, t + ra) {
                            let p = choose|p: int| m < p < c && (#[trigger] call_time(calls[p]) matches Some(tt)
                                && tt >= t + ra);
                            assert(call_time(calls[p]) matches Some(tt) && tt >= t + ra);
                        } else if a == a2 {
                            // The lease `l` holds the account that `m` put to cool down.
                            if l < m {
                                lemma_run_invariant(states, calls, results, m);
                                assert(ends_lease(calls[m], j));
                                assert(!ends_lease(calls[m], l));
                                assert(j != l);
                                assert(lease_live(calls, results, l, m));
                                assert(false);
                            } else {
                                assert(l > m);
                                lemma_run_invariant(states, calls, results, l);
                                let sl = states[l];
                                assert(call_step(sl, calls[l], states[l + 1], results[l], results));
                                let tl = match calls[l] {
                                    PoolCall::Acquire(tl) => tl,
                                    _ => 0,
                                };
                                assert(sl.available(a, tl));
                                if time_reached(calls, m, l, t + ra) {
                                    let p = choose|p: int| m < p < l && (#[trigger] call_time(calls[p]) matches Some(
                                        tt,
                                    ) && tt >= t + ra);
                                    assert(call_time(calls[p]) matches Some(tt) && tt >= t + ra);
                                } else {
                                    assert(sl.cooldowns[a] == Some((t + ra) as u64));
                                    assert(call_time(calls[l]) matches Some(tt) && tt >= t + ra);
                                }
                            }
                        }
                    }
                }
            }
        },
    }
}

/// Over any run of calls on a pool that starts without leases: every lease
/// is of one of its accounts, no two leases held at once share an account,
/// and an account that was rate limited until some instant is not leased
/// before that instant.
pub proof fn leases_stay_exclusive_over_any_calls(
    states: Seq<PoolState>,
    calls: Seq<PoolCall>,
    results: Seq<Option<usize>>,
)
    requires
        pool_run(states, calls, results),
    ensures
        forall|k: int|
            0 <= k < calls.len() && #[trigger] calls[k] is Acquire && results[k] is Some ==> lease_account(
                results,
                k,
            ) < states[0].account_count(),
        forall|k: int, j1: int, j2: int|
            0 <= k <= calls.len() && #[trigger] lease_live(calls, results, j1, k) && #[trigger] lease_live(
                calls,
                results,
                j2,
                k,
            ) && j1 != j2 ==> lease_account(results, j1) != lease_account(results, j2),
        forall|m: int, k: int|
            0 <= m < k < calls.len() ==> (#[trigger] calls[m] matches PoolCall::RateLimited(j, t, ra) ==> (
            #[trigger] calls[k] matches PoolCall::Acquire(now) ==> (now < t + ra ==> lease_account(results, k)
                != lease_account(results, j)))),
{
    assert forall|k: int|
        0 <= k < calls.len() && #[trigger] calls[k] is Acquire && results[k] is Some implies lease_account(
            results,
            k,
        ) < states[0].account_count() by {
        lemma_run_invariant(states, calls, results, k + 1);
    }
    assert forall|k: int, j1: int, j2: int|
        0 <= k <= calls.len() && #[trigger] lease_live(calls, results, j1, k) && #[trigger] lease_live(
            calls,
            results,
            j2,
            k,
        ) && j1 != j2 implies lease_account(results, j1) != lease_account(results, j2) by {
        lemma_run_invariant(states, calls, results, k);
    }
    assert forall|m: int, k: int| 0 <= m < k < calls.len() implies (#[trigger] calls[m] matches PoolCall::RateLimited(
        j,
        t,
        ra,
    ) ==> (#[trigger] calls[k] matches PoolCall::Acquire(now) ==> (now < t + ra ==> lease_account(results, k)
        != lease_account(results, j)))) by {
        if let PoolCall::RateLimited(j, t, ra) = calls[m] {
            if let PoolCall::Acquire(now) = calls[k] {
                if now < t + ra {
                    lemma_run_invariant(states, calls, results, k);
                    let a = lease_account(results, j);
                    assert(call_step(states[k], calls[k], states[k + 1], results[k], results));
                    if time_reached(calls, m, k, t + ra) {
                        let p = choose|p: int| m < p < k && (#[trigger] call_time(calls[p]) matches Some(tt) && tt
                            >= t + ra);
                        assert(call_time(calls[p]) matches Some(tt) && tt >= t + ra);
                        assert(call_time(calls[k]) == Some(now));
                    } else {
                        assert(states[k].cooldowns[a] == Some((t + ra) as u64));
                        assert(ends_lease(calls[m], j));
                        assert(lease_live(calls, results, j, m));
                        if let Some(r) = results[k] {
                            assert(states[k].available(r as int, now));
                        }
                    }
                }
            }
        }
    }
}

} // verus!
