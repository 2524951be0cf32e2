//! Rating histories: entries are (instant, rating) pairs, with instants in
//! nanoseconds since the Unix epoch. Ratings are carried along unchanged.
use vstd::prelude::*;

verus! {

broadcast use vstd::seq_lib::group_to_multiset_ensures;

/// Ratings of one track given at most this long (five minutes, in
/// nanoseconds) after the previous one replace it.
pub const RATING_OVERWRITE_WINDOW: i128 = 300_000_000_000;

/// The entries are in ascending order of time.
pub open spec fn sorted_by_time<R>(s: Seq<(i128, R)>) -> bool {
    forall|i: int, j: int| 0 <= i <= j < s.len() ==> #[trigger] s[i].0 <= #[trigger] s[j].0
}

/// `later` lies no further than the overwrite window after `earlier`.
pub open spec fn within_window(earlier: i128, later: i128) -> bool {
    later - earlier <= RATING_OVERWRITE_WINDOW
}

/// The history that results from walking `s` in order and letting every
/// entry that falls within the window after the last kept entry replace it.
pub open spec fn deduped<R>(s: Seq<(i128, R)>) -> Seq<(i128, R)>
    decreases s.len(),
{
    if s.len() == 0 {
        Seq::empty()
    } else {
        let kept = deduped(s.drop_last());
        let entry = s.last();
        if kept.len() > 0 && within_window(kept.last().0, entry.0) {
            kept.drop_last().push(entry)
        } else {
            kept.push(entry)
        }
    }
}

/// Whether `later - earlier <= RATING_OVERWRITE_WINDOW`, without overflow.
fn is_within_window(earlier: i128, later: i128) -> (b: bool)
    ensures
        b == within_window(earlier, later),
{
    if earlier <= i128::MAX - RATING_OVERWRITE_WINDOW {
        later <= earlier + RATING_OVERWRITE_WINDOW
    } else {
        true
    }
}

proof fn lemma_insert_to_multiset<A>(s: Seq<A>, pos: int, x: A)
    requires
        0 <= pos <= s.len(),
    ensures
        s.insert(pos, x).to_multiset() =~= s.to_multiset().insert(x),
{
    let t = s.insert(pos, x);
    s.insert_ensures(pos, x);
    assert(t.remove(pos) =~= s);
    assert(t.to_multiset().count(x) > 0) by {
        assert(t.contains(x)) by {
            assert(t[pos] == x);
        }
    }
}

/// Whether an entry is at instant `t`.
pub open spec fn is_at<R>(t: i128) -> spec_fn((i128, R)) -> bool {
    |e: (i128, R)| e.0 == t
}

/// The entries of `s` at instant `t`, in their order in `s`.
pub open spec fn at_time<R>(s: Seq<(i128, R)>, t: i128) -> Seq<(i128, R)> {
    s.filter(is_at(t))
}

proof fn lemma_at_time_absent<R>(s: Seq<(i128, R)>, t: i128)
    requires
        forall|j: int| 0 <= j < s.len() ==> #[trigger] s[j].0 != t,
    ensures
        at_time(s, t) == Seq::<(i128, R)>::empty(),
    decreases s.len(),
{
    reveal(Seq::filter);
    if s.len() > 0 {
        lemma_at_time_absent(s.drop_last(), t);
    }
}

/// Inserting `e` after every entry that is not later than it, and before
/// every later one, keeps the entries of each instant in the order they
/// would have if `e` came last.
proof fn lemma_insert_keeps_order<R>(before: Seq<(i128, R)>, pos: int, e: (i128, R), t: i128)
    requires
        0 <= pos <= before.len(),
        forall|j: int| 0 <= j < pos ==> #[trigger] before[j].0 <= e.0,
        forall|j: int| pos <= j < before.len() ==> #[trigger] before[j].0 > e.0,
    ensures
        at_time(before.insert(pos, e), t) == at_time(before.push(e), t),
{
    let pred = is_at::<R>(t);
    let head = before.take(pos);
    let tail = before.skip(pos);
    assert(before.insert(pos, e) =~= head.push(e) + tail);
    assert(before =~= head + tail);
    Seq::filter_distributes_over_add(head.push(e), tail, pred);
    Seq::filter_distributes_over_add(head, tail, pred);
    head.lemma_filter_push(e, pred);
    before.lemma_filter_push(e, pred);
    if t == e.0 {
        assert forall|j: int| 0 <= j < tail.len() implies #[trigger] tail[j].0 != t by {
            assert(tail[j] == before[pos + j]);
        }
        lemma_at_time_absent(tail, t);
        assert(tail.filter(pred) == Seq::<(i128, R)>::empty());
        assert(head.filter(pred) + tail.filter(pred) =~= head.filter(pred));
        assert(head.filter(pred).push(e) + tail.filter(pred) =~= head.filter(pred).push(e));
    }
}

/// The entries of `v` in ascending order of time; entries at the same
/// instant keep their order.
pub fn sort_by_time<R: Copy>(v: &Vec<(i128, R)>) -> (sorted: Vec<(i128, R)>)
    ensures
        sorted_by_time(sorted@),
        forall|t: i128| #[trigger] at_time(sorted@, t) == at_time(v@, t),
        sorted@.to_multiset() == v@.to_multiset(),
        sorted@.len() == v@.len(),
{
    let mut sorted: Vec<(i128, R)> = Vec::new();
    let mut i: usize = 0;
    while i < v.len()
        invariant
            i <= v@.len(),
            sorted_by_time(sorted@),
            sorted@.to_multiset() == v@.take(i as int).to_multiset(),
            forall|t: i128| #[trigger] at_time(sorted@, t) == at_time(v@.take(i as int), t),
            sorted@.len() == i,
        decreases v@.len() - i,
    {
        let entry = v[i];
        // position after every entry that is not later than `entry`
        let mut pos: usize = sorted.len();
        while pos > 0 && sorted[pos - 1].0 > entry.0
            invariant
                pos <= sorted@.len(),
                sorted_by_time(sorted@),
                forall|j: int| pos <= j < sorted@.len() ==> #[trigger] sorted@[j].0 > entry.0,
            decreases pos,
        {
            pos = pos - 1;
        }
        let ghost before = sorted@;
        sorted.insert(pos, entry);
        proof {
            before.insert_ensures(pos as int, entry);
            lemma_insert_to_multiset(before, pos as int, entry);
            assert(v@.take(i + 1) =~= v@.take(i as int).push(entry));
            assert forall|j: int| 0 <= j < pos implies #[trigger] before[j].0 <= entry.0 by {
                assert(before[j].0 <= before[pos - 1].0);
            }
            assert forall|t: i128| #[trigger] at_time(sorted@, t) == at_time(v@.take(i + 1), t) by {
                assert(at_time(before, t) == at_time(v@.take(i as int), t));
                assert(sorted@ == before.insert(pos as int, entry));
                lemma_insert_keeps_order(before, pos as int, entry, t);
                before.lemma_filter_push(entry, is_at::<R>(t));
                v@.take(i as int).lemma_filter_push(entry, is_at::<R>(t));
            }
            assert forall|a: int, b: int| 0 <= a <= b < sorted@.len() implies #[trigger] sorted@[a].0
                <= #[trigger] sorted@[b].0 by {
                if b < pos {
                } else if b == pos {
                    if a < pos {
                        assert(before[a].0 <= before[pos - 1].0);
                    }
                } else if a < pos {
                    assert(before[a].0 <= before[b - 1].0);
                } else if a == pos {
                    assert(before[b - 1].0 > entry.0);
                } else {
                    assert(before[a - 1].0 <= before[b - 1].0);
                }
            }
        }
        i = i + 1;
    }
    assert(v@.take(v@.len() as int) =~= v@);
    sorted
}

/// Sorts the history by time, then lets every rating given within the
/// overwrite window after the previously kept one replace it, time and
/// rating both; the window is measured from the replacing rating on.
/// Entries with equal times may end up in either order before the merge.
pub fn dedupe_rating_history<R: Copy>(history: &mut Vec<(i128, R)>)
    ensures
        exists|sorted: Seq<(i128, R)>|
            {
                &&& sorted_by_time(sorted)
                &&& #[trigger] sorted.to_multiset() == old(history)@.to_multiset()
                &&& final(history)@ == deduped(sorted)
            },
{
    let sorted = sort_by_time(history);
    let mut kept: Vec<(i128, R)> = Vec::new();
    let mut i: usize = 0;
    while i < sorted.len()
        invariant
            i <= sorted@.len(),
            kept@ == deduped(sorted@.take(i as int)),
        decreases sorted@.len() - i,
    {
        let entry = sorted[i];
        proof {
            assert(sorted@.take(i + 1).drop_last() =~= sorted@.take(i as int));
        }
        let n = kept.len();
        if n > 0 && is_within_window(kept[n - 1].0, entry.0) {
            kept.set(n - 1, entry);
            proof {
                assert(kept@ =~= deduped(sorted@.take(i as int)).drop_last().push(entry));
            }
        } else {
            kept.push(entry);
        }
        i = i + 1;
    }
    assert(sorted@.take(sorted@.len() as int) =~= sorted@);
    *history = kept;
}

/// Kept entries are more than the overwrite window apart, in ascending
/// order of time, the latest entry always survives, and every kept entry is
/// one of the given ones.
pub proof fn deduped_entries_are_spaced<R>(s: Seq<(i128, R)>)
    requires
        sorted_by_time(s),
    ensures
        sorted_by_time(deduped(s)),
        forall|i: int|
            0 <= i < deduped(s).len() - 1 ==> !within_window(
                #[trigger] deduped(s)[i].0,
                deduped(s)[i + 1].0,
            ),
        s.len() > 0 ==> deduped(s).len() > 0 && deduped(s).last() == s.last(),
        forall|i: int| 0 <= i < deduped(s).len() ==> s.contains(#[trigger] deduped(s)[i]),
        deduped(s).len() <= s.len(),
    decreases s.len(),
{
    if s.len() > 0 {
        let prefix = s.drop_last();
        assert(sorted_by_time(prefix)) by {
            assert forall|i: int, j: int| 0 <= i <= j < prefix.len() implies #[trigger] prefix[i].0
                <= #[trigger] prefix[j].0 by {
                assert(s[i].0 <= s[j].0);
            }
        }
        deduped_entries_are_spaced(prefix);
        let kept = deduped(prefix);
        let entry = s.last();
        let d = deduped(s);
        assert forall|i: int| 0 <= i < kept.len() implies #[trigger] kept[i].0 <= entry.0 by {
            assert(prefix.contains(kept[i]));
            let k = choose|k: int| 0 <= k < prefix.len() && prefix[k] == kept[i];
            assert(s[k].0 <= s[s.len() - 1].0);
        }
        assert forall|i: int| 0 <= i < d.len() implies s.contains(#[trigger] d[i]) by {
            if i < d.len() - 1 {
                assert(d[i] == kept[i]);
                assert(prefix.contains(kept[i]));
                let k = choose|k: int| 0 <= k < prefix.len() && prefix[k] == kept[i];
                assert(s[k] == d[i]);
            } else {
                assert(d[i] == s[s.len() - 1]);
            }
        }
        assert forall|i: int, j: int| 0 <= i <= j < d.len() implies #[trigger] d[i].0
            <= #[trigger] d[j].0 by {
            if j == d.len() - 1 {
                assert(d[j] == entry);
                if i < j {
                    assert(d[i] == kept[i]);
                }
            } else {
                assert(d[i] == kept[i]);
                assert(d[j] == kept[j]);
            }
        }
        assert forall|i: int| 0 <= i < d.len() - 1 implies !within_window(
            #[trigger] d[i].0,
            d[i + 1].0,
        ) by {
            if i + 1 == d.len() - 1 {
                if kept.len() > 0 && within_window(kept.last().0, entry.0) {
                    assert(d[i] == kept[i]);
                    assert(kept[i].0 <= kept[kept.len() - 1].0);
                    assert(!within_window(kept[i].0, kept[i + 1].0));
                    assert(kept[i + 1].0 <= entry.0);
                } else {
                    assert(d[i] == kept[i]);
                    assert(i == kept.len() - 1);
                }
            } else {
                assert(d[i] == kept[i]);
                assert(d[i + 1] == kept[i + 1]);
            }
        }
    }
}

/// Merging an already merged history changes nothing.
pub proof fn dedupe_is_idempotent<R>(s: Seq<(i128, R)>)
    requires
        sorted_by_time(s),
    ensures
        deduped(deduped(s)) == deduped(s),
{
    deduped_entries_are_spaced(s);
    lemma_spaced_history_is_kept(deduped(s));
}

proof fn lemma_spaced_history_is_kept<R>(s: Seq<(i128, R)>)
    requires
        forall|i: int| 0 <= i < s.len() - 1 ==> !within_window(#[trigger] s[i].0, s[i + 1].0),
    ensures
        deduped(s) == s,
    decreases s.len(),
{
    if s.len() > 0 {
        let prefix = s.drop_last();
        assert forall|i: int| 0 <= i < prefix.len() - 1 implies !within_window(
            #[trigger] prefix[i].0,
            prefix[i + 1].0,
        ) by {
            assert(prefix[i] == s[i]);
            assert(prefix[i + 1] == s[i + 1]);
        }
        lemma_spaced_history_is_kept(prefix);
        if prefix.len() > 0 {
            assert(!within_window(s[s.len() - 2].0, s[s.len() - 1].0));
        }
        assert(prefix.push(s.last()) =~= s);
    }
}

/// The instants are in ascending order.
pub open spec fn ascending(s: Seq<i128>) -> bool {
    forall|i: int, j: int| 0 <= i <= j < s.len() ==> #[trigger] s[i] <= #[trigger] s[j]
}

/// The instants of a history, in its order.
pub open spec fn instants<R>(h: Seq<(i128, R)>) -> Seq<i128> {
    h.map_values(|e: (i128, R)| e.0)
}

/// `history` lists the instants of `times` in ascending order, each paired
/// with the number of instants before it (as a `u32`, wrapping).
pub open spec fn numbered(times: Seq<i128>, history: Seq<(i128, u32)>) -> bool {
    &&& ascending(instants(history))
    &&& instants(history).to_multiset() == times.to_multiset()
    &&& forall|i: int| 0 <= i < history.len() ==> #[trigger] history[i].1 == i as u32
}

/// The instants in ascending order.
pub fn sort_instants(v: &Vec<i128>) -> (sorted: Vec<i128>)
    ensures
        ascending(sorted@),
        sorted@.to_multiset() == v@.to_multiset(),
        sorted@.len() == v@.len(),
{
    let mut sorted: Vec<i128> = Vec::new();
    let mut i: usize = 0;
    while i < v.len()
        invariant
            i <= v@.len(),
            ascending(sorted@),
            sorted@.to_multiset() == v@.take(i as int).to_multiset(),
            sorted@.len() == i,
        decreases v@.len() - i,
    {
        let t = v[i];
        let mut pos: usize = sorted.len();
        while pos > 0 && sorted[pos - 1] > t
            invariant
                pos <= sorted@.len(),
                ascending(sorted@),
                forall|j: int| pos <= j < sorted@.len() ==> #[trigger] sorted@[j] > t,
            decreases pos,
        {
            pos = pos - 1;
        }
        let ghost before = sorted@;
        sorted.insert(pos, t);
        proof {
            before.insert_ensures(pos as int, t);
            lemma_insert_to_multiset(before, pos as int, t);
            assert(v@.take(i + 1) =~= v@.take(i as int).push(t));
            assert forall|a: int, b: int| 0 <= a <= b < sorted@.len() implies #[trigger] sorted@[a]
                <= #[trigger] sorted@[b] by {
                if b < pos {
                } else if b == pos {
                    if a < pos {
                        assert(before[a] <= before[pos - 1]);
                    }
                } else if a < pos {
                    assert(before[a] <= before[b - 1]);
                } else if a == pos {
                    assert(before[b - 1] > t);
                } else {
                    assert(before[a - 1] <= before[b - 1]);
                }
            }
        }
        i = i + 1;
    }
    assert(v@.take(v@.len() as int) =~= v@);
    sorted
}

/// The running count of the given instants: each instant, in ascending
/// order, with the number of instants before it.
pub fn count_history(times: &Vec<i128>) -> (history: Vec<(i128, u32)>)
    ensures
        numbered(times@, history@),
        history@.len() == times@.len(),
{
    let sorted = sort_instants(times);
    let mut history: Vec<(i128, u32)> = Vec::new();
    let mut i: usize = 0;
    while i < sorted.len()
        invariant
            i <= sorted@.len(),
            history@.len() == i,
            forall|j: int| 0 <= j < i ==> #[trigger] history@[j] == (sorted@[j], j as u32),
        decreases sorted@.len() - i,
    {
        history.push((sorted[i], i as u32));
        i = i + 1;
    }
    assert(instants(history@) =~= sorted@);
    history
}

/// The earliest instant of a non-empty history.
pub open spec fn earliest<R>(h: Seq<(i128, R)>) -> i128
    decreases h.len(),
{
    if h.len() <= 1 {
        h[0].0
    } else {
        let rest = earliest(h.drop_last());
        if h.last().0 < rest {
            h.last().0
        } else {
            rest
        }
    }
}

/// The earliest instant of a history is the instant of one of its entries
/// and no later than any of them.
pub proof fn earliest_is_the_minimum<R>(h: Seq<(i128, R)>)
    requires
        h.len() > 0,
    ensures
        forall|i: int| 0 <= i < h.len() ==> earliest(h) <= #[trigger] h[i].0,
        exists|i: int| 0 <= i < h.len() && earliest(h) == #[trigger] h[i].0,
    decreases h.len(),
{
    if h.len() > 1 {
        let init = h.drop_last();
        earliest_is_the_minimum(init);
        assert forall|i: int| 0 <= i < h.len() implies earliest(h) <= #[trigger] h[i].0 by {
            if i < h.len() - 1 {
                assert(init[i] == h[i]);
            }
        }
        if h.last().0 < earliest(init) {
            assert(earliest(h) == h[h.len() - 1].0);
        } else {
            let i = choose|i: int| 0 <= i < init.len() && earliest(init) == #[trigger] init[i].0;
            assert(init[i] == h[i]);
            assert(earliest(h) == h[i].0);
        }
    } else {
        assert(earliest(h) == h[0].0);
    }
}

/// The instant of the first rating in the history, if there is one.
pub fn first_rating_time<R: Copy>(history: &Vec<(i128, R)>) -> (first: Option<i128>)
    ensures
        history@.len() == 0 <==> first is None,
        first matches Some(t) ==> t == earliest(history@),
        first matches Some(t) ==> forall|i: int| 0 <= i < history@.len() ==> t <= #[trigger] history@[i].0,
        first matches Some(t) ==> exists|i: int| 0 <= i < history@.len() && t == #[trigger] history@[i].0,
{
    if history.len() == 0 {
        return None;
    }
    let mut first = history[0].0;
    let mut i: usize = 1;
    while i < history.len()
        invariant
            1 <= i <= history@.len(),
            first == earliest(history@.take(i as int)),
        decreases history@.len() - i,
    {
        proof {
            assert(history@.take(i + 1).drop_last() =~= history@.take(i as int));
        }
        if history[i].0 < first {
            first = history[i].0;
        }
        i = i + 1;
    }
    assert(history@.take(history@.len() as int) =~= history@);
    proof {
        earliest_is_the_minimum(history@);
    }
    Some(first)
}

/// All instants of all histories, track after track.
pub open spec fn all_instants<R>(histories: Seq<Seq<(i128, R)>>) -> Seq<i128>
    decreases histories.len(),
{
    if histories.len() == 0 {
        Seq::empty()
    } else {
        all_instants(histories.drop_last()) + instants(histories.last())
    }
}

/// The instant of the first rating of every rated track, track after track.
pub open spec fn first_instants<R>(histories: Seq<Seq<(i128, R)>>) -> Seq<i128>
    decreases histories.len(),
{
    if histories.len() == 0 {
        Seq::empty()
    } else if histories.last().len() == 0 {
        first_instants(histories.drop_last())
    } else {
        first_instants(histories.drop_last()).push(earliest(histories.last()))
    }
}

/// The views of the histories.
pub open spec fn history_views<R>(histories: Seq<Vec<(i128, R)>>) -> Seq<Seq<(i128, R)>> {
    histories.map_values(|h: Vec<(i128, R)>| h@)
}

/// The number of ratings over time and the number of rated tracks over
/// time: the running count of every rating instant, and of every track's
/// first rating instant.
pub fn rating_count_histories<R: Copy>(histories: &Vec<Vec<(i128, R)>>) -> (result: (
    Vec<(i128, u32)>,
    Vec<(i128, u32)>,
))
    ensures
        numbered(all_instants(history_views(histories@)), result.0@),
        numbered(first_instants(history_views(histories@)), result.1@),
{
    let mut all: Vec<i128> = Vec::new();
    let mut firsts: Vec<i128> = Vec::new();
    let mut i: usize = 0;
    while i < histories.len()
        invariant
            i <= histories@.len(),
            all@ == all_instants(history_views(histories@).take(i as int)),
            firsts@ == first_instants(history_views(histories@).take(i as int)),
        decreases histories@.len() - i,
    {
        let h = &histories[i];
        proof {
            assert(history_views(histories@).take(i + 1).drop_last() =~= history_views(
                histories@,
            ).take(i as int));
            assert(history_views(histories@)[i as int] == h@);
        }
        let ghost all_before = all@;
        let mut j: usize = 0;
        while j < h.len()
            invariant
                j <= h@.len(),
                all@ == all_before + instants(h@.take(j as int)),
            decreases h@.len() - j,
        {
            all.push(h[j].0);
            proof {
                assert(instants(h@.take(j + 1)) =~= instants(h@.take(j as int)).push(h@[j as int].0));
            }
            j = j + 1;
        }
        assert(h@.take(h@.len() as int) =~= h@);
        match first_rating_time(h) {
            Some(t) => firsts.push(t),
            None => {},
        }
        i = i + 1;
    }
    assert(history_views(histories@).take(histories@.len() as int) =~= history_views(histories@));
    (count_history(&all), count_history(&firsts))
}

/// The latest rating of the history (sorted by time) was given no longer
/// than the overwrite window before `now`.
pub fn rated_within_window<R: Copy>(history: &Vec<(i128, R)>, now: i128) -> (recent: bool)
    ensures
        recent == (history@.len() > 0 && within_window(history@.last().0, now)),
{
    if history.len() == 0 {
        false
    } else {
        is_within_window(history[history.len() - 1].0, now)
    }
}

} // verus!
