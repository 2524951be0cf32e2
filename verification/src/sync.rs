//! Which rating playlists to fetch again. Instants are in nanoseconds since
//! the Unix epoch.
use vstd::prelude::*;

verus! {

/// The earliest instant the clock represents (`time::UtcDateTime::MIN`,
/// the start of year -9999), standing for "never fetched in full".
pub const NEVER: i128 = -377_705_116_800_000_000_000;

/// When the playlist was last fetched in full, never standing for the
/// earliest instant.
pub open spec fn refetch_key(last: Option<i128>) -> i128 {
    match last {
        Some(t) => t,
        None => NEVER,
    }
}

/// The playlist was last fetched in full before the threshold.
pub open spec fn is_overdue(last: Option<i128>, threshold: i128) -> bool {
    refetch_key(last) < threshold
}

/// `i` is the most overdue playlist: overdue, fetched in full no later
/// than any other overdue playlist, and the first such.
pub open spec fn most_overdue_at(last_refetch: Seq<Option<i128>>, threshold: i128, i: int) -> bool {
    &&& 0 <= i < last_refetch.len()
    &&& is_overdue(last_refetch[i], threshold)
    &&& forall|j: int|
        0 <= j < last_refetch.len() && is_overdue(#[trigger] last_refetch[j], threshold) ==> refetch_key(
            last_refetch[i],
        ) <= refetch_key(last_refetch[j])
    &&& forall|j: int|
        0 <= j < i && is_overdue(#[trigger] last_refetch[j], threshold) ==> refetch_key(last_refetch[i])
            < refetch_key(last_refetch[j])
}

/// The playlist to fetch in full this time: among those last fetched in
/// full before `threshold` (or never), the one fetched longest ago, the
/// first of equals; `None` when no playlist is overdue.
pub fn most_overdue(last_refetch: &Vec<Option<i128>>, threshold: i128) -> (r: Option<usize>)
    ensures
        r matches Some(i) ==> most_overdue_at(last_refetch@, threshold, i as int),
        r is None ==> forall|j: int|
            0 <= j < last_refetch@.len() ==> !is_overdue(#[trigger] last_refetch@[j], threshold),
{
    let mut best: Option<usize> = None;
    let mut best_key: i128 = 0;
    let mut i: usize = 0;
    while i < last_refetch.len()
        invariant
            i <= last_refetch@.len(),
            match best {
                Some(b) => {
                    &&& b < i
                    &&& best_key == refetch_key(last_refetch@[b as int])
                    &&& most_overdue_at(last_refetch@.take(i as int), threshold, b as int)
                },
                None => forall|j: int|
                    0 <= j < i ==> !is_overdue(#[trigger] last_refetch@[j], threshold),
            },
        decreases last_refetch@.len() - i,
    {
        let key = match last_refetch[i] {
            Some(t) => t,
            None => NEVER,
        };
        let ghost prefix = last_refetch@.take(i as int);
        let ghost next = last_refetch@.take(i + 1);
        assert forall|j: int| 0 <= j < i implies #[trigger] next[j] == prefix[j] by {}
        if key < threshold {
            let better = match best {
                Some(_) => key < best_key,
                None => true,
            };
            if better {
                best = Some(i);
                best_key = key;
                proof {
                    assert forall|j: int|
                        0 <= j < next.len() && is_overdue(#[trigger] next[j], threshold) implies refetch_key(
                        next[i as int],
                    ) <= refetch_key(next[j]) by {
                        if j < i {
                            assert(prefix[j] == next[j]);
                        }
                    }
                    assert forall|j: int|
                        0 <= j < i && is_overdue(#[trigger] next[j], threshold) implies refetch_key(
                        next[i as int],
                    ) < refetch_key(next[j]) by {
                        assert(prefix[j] == next[j]);
                    }
                }
            } else {
                proof {
                    let b = best->0 as int;
                    assert(prefix[b] == next[b]);
                    assert forall|j: int|
                        0 <= j < next.len() && is_overdue(#[trigger] next[j], threshold) implies refetch_key(
                        next[b],
                    ) <= refetch_key(next[j]) by {
                        if j < i {
                            assert(prefix[j] == next[j]);
                        }
                    }
                    assert forall|j: int|
                        0 <= j < b && is_overdue(#[trigger] next[j], threshold) implies refetch_key(
                        next[b],
                    ) < refetch_key(next[j]) by {
                        assert(prefix[j] == next[j]);
                    }
                }
            }
        } else {
            proof {
                match best {
                    Some(b) => {
                        let b = b as int;
                        assert(prefix[b] == next[b]);
                        assert forall|j: int|
                            0 <= j < next.len() && is_overdue(#[trigger] next[j], threshold) implies refetch_key(
                            next[b],
                        ) <= refetch_key(next[j]) by {
                            if j < i {
                                assert(prefix[j] == next[j]);
                            }
                        }
                        assert forall|j: int|
                            0 <= j < b && is_overdue(#[trigger] next[j], threshold) implies refetch_key(
                            next[b],
                        ) < refetch_key(next[j]) by {
                            assert(prefix[j] == next[j]);
                        }
                    },
                    None => {},
                }
            }
        }
        i = i + 1;
    }
    assert(last_refetch@.take(last_refetch@.len() as int) =~= last_refetch@);
    best
}

/// Whether a rating playlist is fetched: always when it is the overdue
/// one, otherwise only when its snapshot id changed since the last fetch.
pub fn should_fetch_playlist(overdue: bool, previous_snapshot: Option<&String>, snapshot: &String) -> (b:
    bool)
    ensures
        b == (overdue || !(previous_snapshot matches Some(p) && p@ == snapshot@)),
{
    if overdue {
        return true;
    }
    match previous_snapshot {
        Some(previous) => *previous != *snapshot,
        None => true,
    }
}

} // verus!
