use dash::limiter::{Endpoint, EndpointPool, LimiterError, ENDPOINT_COUNT};

fn pool(accounts: usize) -> EndpointPool {
    EndpointPool::new(accounts).unwrap()
}

#[test]
fn leases_are_round_robin_per_endpoint() {
    let mut pool = pool(2);
    let first = pool.try_acquire(0).unwrap();
    assert_eq!(first, 0);
    pool.release(first);

    let second = pool.try_acquire(0).unwrap();
    assert_eq!(second, 1);
    pool.release(second);

    let third = pool.try_acquire(0).unwrap();
    assert_eq!(third, 0);
}

#[test]
fn cooldown_skips_account_and_release_wakes_waiter() {
    let mut pool = pool(2);
    let first = pool.try_acquire(0).unwrap();
    pool.rate_limited(first, 0, 100);

    let second = pool.try_acquire(0).unwrap();
    assert_eq!(second, 1);

    // a waiter finds nothing free and waits for the cooldown or a release
    assert_eq!(pool.try_acquire(10), None);
    assert_eq!(pool.next_wakeup(10), Some(100));

    pool.release(second);
    assert_eq!(pool.try_acquire(10), Some(1));
}

#[test]
fn cooldown_ends_at_its_instant() {
    let mut pool = pool(1);
    let a = pool.try_acquire(0).unwrap();
    pool.rate_limited(a, 0, 50);
    assert_eq!(pool.try_acquire(49), None);
    assert_eq!(pool.try_acquire(50), Some(0));
}

#[test]
fn next_wakeup_forgets_expired_cooldowns() {
    let mut pool = pool(3);
    let a = pool.try_acquire(0).unwrap();
    let b = pool.try_acquire(0).unwrap();
    pool.rate_limited(a, 0, 30);
    pool.rate_limited(b, 0, 20);
    assert_eq!(pool.next_wakeup(5), Some(20));
    assert_eq!(pool.next_wakeup(25), Some(30));
    assert_eq!(pool.next_wakeup(30), None);
}

#[test]
fn busy_accounts_are_skipped() {
    let mut pool = pool(3);
    assert_eq!(pool.try_acquire(0), Some(0));
    assert_eq!(pool.try_acquire(0), Some(1));
    assert_eq!(pool.try_acquire(0), Some(2));
    assert_eq!(pool.try_acquire(0), None);
    pool.release(1);
    assert_eq!(pool.try_acquire(0), Some(1));
    assert_eq!(pool.account_count(), 3);
}

#[test]
fn a_pool_needs_an_account() {
    assert_eq!(EndpointPool::new(0).err(), Some(LimiterError::NoAccounts));
}

#[test]
fn endpoints_have_distinct_indices() {
    let all = [
        Endpoint::MyPlaylists,
        Endpoint::Playlists,
        Endpoint::SavedTracks,
        Endpoint::Player,
        Endpoint::Tracks,
        Endpoint::Artists,
        Endpoint::Me,
        Endpoint::LastFmTopTags,
    ];
    let indices: Vec<usize> = all.iter().map(|e| e.index()).collect();
    assert_eq!(indices, (0..ENDPOINT_COUNT).collect::<Vec<_>>());
}
