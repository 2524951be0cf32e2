//! Password login and cookie sessions. Instants are in nanoseconds since
//! the Unix epoch.
use vstd::prelude::*;
use crate::text::{chars_of, split_chars, split_on, string_from_chars};

verus! {

/// The name of the session cookie.
pub open spec fn session_cookie_name() -> Seq<char> {
    seq!['d', 'a', 's', 'h', 'b', 'o', 'a', 'r', 'd', '_', 's', 'e', 's', 's', 'i', 'o', 'n']
}

/// How long a session lasts: thirty days, in nanoseconds.
pub const SESSION_MAX_AGE: i128 = 2_592_000_000_000_000;

/// Unicode White_Space, as `char::is_whitespace` defines it.
pub open spec fn is_whitespace(c: char) -> bool {
    ||| '\u{9}' <= c <= '\u{d}'
    ||| c == ' '
    ||| c == '\u{85}'
    ||| c == '\u{a0}'
    ||| c == '\u{1680}'
    ||| '\u{2000}' <= c <= '\u{200a}'
    ||| c == '\u{2028}'
    ||| c == '\u{2029}'
    ||| c == '\u{202f}'
    ||| c == '\u{205f}'
    ||| c == '\u{3000}'
}

fn whitespace(c: char) -> (b: bool)
    ensures
        b == is_whitespace(c),
{
    ('\u{9}' <= c && c <= '\u{d}') || c == ' ' || c == '\u{85}' || c == '\u{a0}' || c == '\u{1680}'
        || ('\u{2000}' <= c && c <= '\u{200a}') || c == '\u{2028}' || c == '\u{2029}' || c
        == '\u{202f}' || c == '\u{205f}' || c == '\u{3000}'
}

/// Number of leading whitespace characters.
pub open spec fn leading_whitespace(s: Seq<char>) -> nat
    decreases s.len(),
{
    if s.len() > 0 && is_whitespace(s[0]) {
        1 + leading_whitespace(s.drop_first())
    } else {
        0
    }
}

/// Number of trailing whitespace characters.
pub open spec fn trailing_whitespace(s: Seq<char>) -> nat
    decreases s.len(),
{
    if s.len() > 0 && is_whitespace(s.last()) {
        1 + trailing_whitespace(s.drop_last())
    } else {
        0
    }
}

/// `s` without leading and trailing whitespace, as `str::trim` gives it.
pub open spec fn trimmed(s: Seq<char>) -> Seq<char> {
    let rest = s.skip(leading_whitespace(s) as int);
    rest.take(rest.len() - trailing_whitespace(rest))
}

proof fn lemma_leading_whitespace(s: Seq<char>, k: int)
    requires
        0 <= k <= s.len(),
        forall|j: int| 0 <= j < k ==> is_whitespace(#[trigger] s[j]),
        k == s.len() || !is_whitespace(s[k]),
    ensures
        leading_whitespace(s) == k,
    decreases k,
{
    if k > 0 {
        lemma_leading_whitespace(s.drop_first(), k - 1);
    }
}

proof fn lemma_trailing_whitespace(s: Seq<char>, k: int)
    requires
        0 <= k <= s.len(),
        forall|j: int| s.len() - k <= j < s.len() ==> is_whitespace(#[trigger] s[j]),
        k == s.len() || !is_whitespace(s[s.len() - k - 1]),
    ensures
        trailing_whitespace(s) == k,
    decreases k,
{
    if k > 0 {
        lemma_trailing_whitespace(s.drop_last(), k - 1);
    }
}

/// The characters without leading and trailing whitespace.
pub fn trim_chars(s: &Vec<char>) -> (t: Vec<char>)
    ensures
        t@ == trimmed(s@),
{
    let n = s.len();
    let mut start: usize = 0;
    while start < n && whitespace(s[start])
        invariant
            start <= n == s@.len(),
            forall|j: int| 0 <= j < start ==> is_whitespace(#[trigger] s@[j]),
        decreases n - start,
    {
        start = start + 1;
    }
    proof {
        lemma_leading_whitespace(s@, start as int);
    }
    let ghost rest = s@.skip(start as int);
    let mut end: usize = n;
    while end > start && whitespace(s[end - 1])
        invariant
            start <= end <= n == s@.len(),
            rest == s@.skip(start as int),
            forall|j: int| end <= j < n ==> is_whitespace(#[trigger] s@[j]),
        decreases end,
    {
        end = end - 1;
    }
    proof {
        assert forall|j: int| rest.len() - (n - end) <= j < rest.len() implies is_whitespace(
            #[trigger] rest[j],
        ) by {
            assert(rest[j] == s@[j + start]);
        }
        if end > start {
            assert(rest[rest.len() - (n - end) - 1] == s@[end - 1]);
        }
        lemma_trailing_whitespace(rest, (n - end) as int);
    }
    let mut t: Vec<char> = Vec::new();
    let mut i: usize = start;
    while i < end
        invariant
            start <= i <= end <= n == s@.len(),
            t@ == s@.subrange(start as int, i as int),
        decreases end - i,
    {
        t.push(s[i]);
        proof {
            assert(s@.subrange(start as int, i + 1) =~= s@.subrange(start as int, i as int).push(
                s@[i as int],
            ));
        }
        i = i + 1;
    }
    assert(t@ =~= trimmed(s@));
    t
}

/// Where the first `c` stands in `s`, if anywhere.
pub open spec fn first_index_of(s: Seq<char>, c: char) -> Option<int>
    decreases s.len(),
{
    if s.len() == 0 {
        None
    } else if s[0] == c {
        Some(0)
    } else {
        match first_index_of(s.drop_first(), c) {
            Some(i) => Some(i + 1),
            None => None,
        }
    }
}

proof fn lemma_first_index_of(s: Seq<char>, c: char, k: int)
    requires
        0 <= k <= s.len(),
        forall|j: int| 0 <= j < k ==> #[trigger] s[j] != c,
    ensures
        k == s.len() ==> first_index_of(s, c) is None,
        k < s.len() && s[k] == c ==> first_index_of(s, c) == Some(k),
    decreases k,
{
    if k > 0 {
        lemma_first_index_of(s.drop_first(), c, k - 1);
    }
}

/// The value of the first cookie among `cookies` (`name=value` pieces, each
/// trimmed and split at its first `=`) whose name is `name`.
pub open spec fn cookie_value_in(cookies: Seq<Seq<char>>, name: Seq<char>) -> Option<Seq<char>>
    decreases cookies.len(),
{
    if cookies.len() == 0 {
        None
    } else {
        let cookie = trimmed(cookies[0]);
        match first_index_of(cookie, '=') {
            Some(i) => if cookie.take(i) == name {
                Some(cookie.skip(i + 1))
            } else {
                cookie_value_in(cookies.drop_first(), name)
            },
            None => cookie_value_in(cookies.drop_first(), name),
        }
    }
}

/// The value of the cookie `name` in a `Cookie` header: the first of the
/// `;`-separated cookies whose name matches.
pub open spec fn cookie_value(header: Seq<char>, name: Seq<char>) -> Option<Seq<char>> {
    cookie_value_in(split_on(header, ';'), name)
}

/// The value of the cookie `name` in the `Cookie` header `cookie_header`.
pub fn parse_cookie(cookie_header: &str, name: &str) -> (value: Option<String>)
    ensures
        match cookie_value(cookie_header@, name@) {
            Some(v) => value matches Some(s) && s@ == v,
            None => value is None,
        },
{
    let name_chars = chars_of(name);
    let cookies = split_chars(&chars_of(cookie_header), ';');
    let ghost views = cookies@.map_values(|p: Vec<char>| p@);
    assert(views.skip(0) =~= views);
    let mut k: usize = 0;
    while k < cookies.len()
        invariant
            k <= cookies@.len(),
            views == cookies@.map_values(|p: Vec<char>| p@),
            views == split_on(cookie_header@, ';'),
            name_chars@ == name@,
            cookie_value(cookie_header@, name@) == cookie_value_in(views.skip(k as int), name@),
        decreases cookies@.len() - k,
    {
        let cookie = trim_chars(&cookies[k]);
        proof {
            assert(views[k as int] == cookies@[k as int]@);
            assert(views.skip(k as int)[0] == views[k as int]);
            assert(views.skip(k as int).drop_first() =~= views.skip(k + 1));
        }
        let mut eq: usize = 0;
        while eq < cookie.len() && cookie[eq] != '='
            invariant
                eq <= cookie@.len(),
                forall|j: int| 0 <= j < eq ==> #[trigger] cookie@[j] != '=',
            decreases cookie@.len() - eq,
        {
            eq = eq + 1;
        }
        proof {
            lemma_first_index_of(cookie@, '=', eq as int);
        }
        if eq < cookie.len() {
            let mut key: Vec<char> = Vec::new();
            let mut i: usize = 0;
            while i < eq
                invariant
                    i <= eq < cookie@.len(),
                    key@ == cookie@.take(i as int),
                decreases eq - i,
            {
                key.push(cookie[i]);
                proof {
                    assert(cookie@.take(i + 1) =~= cookie@.take(i as int).push(cookie@[i as int]));
                }
                i = i + 1;
            }
            if crate::text::same_chars(&key, name_chars.as_slice()) {
                let mut value: Vec<char> = Vec::new();
                let mut j: usize = eq + 1;
                while j < cookie.len()
                    invariant
                        eq + 1 <= j <= cookie@.len(),
                        value@ == cookie@.subrange(eq + 1, j as int),
                    decreases cookie@.len() - j,
                {
                    value.push(cookie[j]);
                    proof {
                        assert(cookie@.subrange(eq + 1, j + 1) =~= cookie@.subrange(eq + 1, j as int).push(
                            cookie@[j as int],
                        ));
                    }
                    j = j + 1;
                }
                assert(value@ =~= cookie@.skip(eq + 1));
                return Some(string_from_chars(&value));
            }
        }
        k = k + 1;
    }
    None
}

/// How the current request identifies its session.
#[derive(Debug)]
pub enum SessionLookup {
    /// The request carries this session id.
    Id(String),
    /// The request carries no session cookie.
    NoId,
    /// There is no request: the call comes from the server itself.
    NoContext,
}

/// The session cookie of the first of the `Cookie` headers that has one.
pub open spec fn first_session_cookie(headers: Seq<Seq<char>>) -> Option<Seq<char>>
    decreases headers.len(),
{
    if headers.len() == 0 {
        None
    } else {
        match cookie_value(headers[0], session_cookie_name()) {
            Some(id) => Some(id),
            None => first_session_cookie(headers.drop_first()),
        }
    }
}

/// Every `Cookie` header of a request counts: the session id is that of the
/// first header that carries the session cookie, whichever position it
/// has, and there is none only when no header carries one.
pub proof fn session_cookie_found_in_any_header(headers: Seq<Seq<char>>)
    ensures
        forall|k: int|
            0 <= k < headers.len() && #[trigger] cookie_value(headers[k], session_cookie_name()) is Some
                && (forall|j: int| 0 <= j < k ==> cookie_value(headers[j], session_cookie_name()) is None)
                ==> first_session_cookie(headers) == cookie_value(headers[k], session_cookie_name()),
        (forall|k: int| 0 <= k < headers.len() ==> #[trigger] cookie_value(headers[k], session_cookie_name()) is None)
            ==> first_session_cookie(headers) is None,
        first_session_cookie(headers) is Some ==> exists|k: int|
            0 <= k < headers.len() && #[trigger] cookie_value(headers[k], session_cookie_name())
                == first_session_cookie(headers),
    decreases headers.len(),
{
    if headers.len() > 0 {
        let rest = headers.drop_first();
        session_cookie_found_in_any_header(rest);
        assert forall|k: int|
            0 <= k < headers.len() && #[trigger] cookie_value(headers[k], session_cookie_name()) is Some
                && (forall|j: int| 0 <= j < k ==> cookie_value(headers[j], session_cookie_name()) is None)
                implies first_session_cookie(headers) == cookie_value(headers[k], session_cookie_name()) by {
            if k > 0 {
                assert(cookie_value(headers[0], session_cookie_name()) is None);
                assert(rest[k - 1] == headers[k]);
                assert forall|j: int| 0 <= j < k - 1 implies cookie_value(rest[j], session_cookie_name()) is None by {
                    assert(rest[j] == headers[j + 1]);
                    assert(cookie_value(headers[j + 1], session_cookie_name()) is None);
                }
                assert(cookie_value(rest[k - 1], session_cookie_name()) is Some);
            }
        }
        if forall|k: int| 0 <= k < headers.len() ==> #[trigger] cookie_value(headers[k], session_cookie_name()) is None {
            assert(cookie_value(headers[0], session_cookie_name()) is None);
            assert forall|k: int| 0 <= k < rest.len() implies #[trigger] cookie_value(rest[k], session_cookie_name()) is None by {
                assert(rest[k] == headers[k + 1]);
                assert(cookie_value(headers[k + 1], session_cookie_name()) is None);
            }
        }
        if first_session_cookie(headers) is Some {
            if cookie_value(headers[0], session_cookie_name()) is Some {
                assert(cookie_value(headers[0], session_cookie_name()) == first_session_cookie(headers));
            } else {
                let k = choose|k: int|
                    0 <= k < rest.len() && #[trigger] cookie_value(rest[k], session_cookie_name())
                        == first_session_cookie(rest);
                assert(rest[k] == headers[k + 1]);
                assert(cookie_value(headers[k + 1], session_cookie_name()) == first_session_cookie(headers));
            }
        }
    }
}

/// How a request identifies its session: `None` when there is no request
/// (a call from the server itself); otherwise the session cookie of the
/// first of its readable `Cookie` headers that has one.
pub fn session_lookup(cookie_headers: Option<&Vec<String>>) -> (lookup: SessionLookup)
    ensures
        match cookie_headers {
            None => lookup is NoContext,
            Some(headers) => match first_session_cookie(headers@.map_values(|h: String| h@)) {
                Some(id) => lookup matches SessionLookup::Id(s) && s@ == id,
                None => lookup is NoId,
            },
        },
{
    let headers = match cookie_headers {
        Some(headers) => headers,
        None => return SessionLookup::NoContext,
    };
    let ghost views = headers@.map_values(|h: String| h@);
    let name = "dashboard_session";
    proof {
        reveal_strlit("dashboard_session");
        assert(name@ =~= session_cookie_name());
        assert(views.skip(0) =~= views);
    }
    let mut k: usize = 0;
    while k < headers.len()
        invariant
            k <= headers@.len(),
            name@ == session_cookie_name(),
            cookie_headers == Some(headers),
            views == headers@.map_values(|h: String| h@),
            first_session_cookie(views) == first_session_cookie(views.skip(k as int)),
        decreases headers@.len() - k,
    {
        proof {
            assert(views.skip(k as int)[0] == headers@[k as int]@);
            assert(views.skip(k as int).drop_first() =~= views.skip(k + 1));
        }
        match parse_cookie(headers[k].as_str(), name) {
            Some(id) => {
                proof {
                    assert(cookie_value(views.skip(k as int)[0], session_cookie_name()) == Some(id@));
                    assert(first_session_cookie(views.skip(k as int)) == Some(id@));
                }
                return SessionLookup::Id(id);
            },
            None => {
                proof {
                    assert(cookie_value(views.skip(k as int)[0], session_cookie_name()) is None);
                }
            },
        }
        k = k + 1;
    }
    proof {
        assert(views.skip(k as int).len() == 0);
    }
    SessionLookup::NoId
}

/// When the session `id` expires among the entries, if it is one of them.
pub open spec fn expiry_in(entries: Seq<(Seq<char>, i128)>, id: Seq<char>) -> Option<i128>
    decreases entries.len(),
{
    if entries.len() == 0 {
        None
    } else if entries.last().0 == id {
        Some(entries.last().1)
    } else {
        expiry_in(entries.drop_last(), id)
    }
}

/// No session id occurs twice.
pub open spec fn distinct_ids(entries: Seq<(Seq<char>, i128)>) -> bool {
    forall|i: int, j: int| 0 <= i < j < entries.len() ==> #[trigger] entries[i].0 != #[trigger] entries[j].0
}

proof fn lemma_expiry_in_absent(entries: Seq<(Seq<char>, i128)>, id: Seq<char>)
    requires
        forall|i: int| 0 <= i < entries.len() ==> #[trigger] entries[i].0 != id,
    ensures
        expiry_in(entries, id) is None,
    decreases entries.len(),
{
    if entries.len() > 0 {
        lemma_expiry_in_absent(entries.drop_last(), id);
    }
}

proof fn lemma_expiry_in_at(entries: Seq<(Seq<char>, i128)>, k: int)
    requires
        distinct_ids(entries),
        0 <= k < entries.len(),
    ensures
        expiry_in(entries, entries[k].0) == Some(entries[k].1),
    decreases entries.len(),
{
    if k < entries.len() - 1 {
        assert(entries.last().0 != entries[k].0);
        let prefix = entries.drop_last();
        assert(distinct_ids(prefix)) by {
            assert forall|i: int, j: int| 0 <= i < j < prefix.len() implies #[trigger] prefix[i].0
                != #[trigger] prefix[j].0 by {
                assert(entries[i].0 != entries[j].0);
            }
        }
        lemma_expiry_in_at(prefix, k);
    }
}

/// The ids and expiry instants of the entries.
pub open spec fn session_views(entries: Seq<(String, i128)>) -> Seq<(Seq<char>, i128)> {
    entries.map_values(|e: (String, i128)| (e.0@, e.1))
}

/// The live sessions with their expiry instants.
pub struct SessionStore {
    sessions: Vec<(String, i128)>,
}

impl View for SessionStore {
    type V = Seq<(Seq<char>, i128)>;

    closed spec fn view(&self) -> Seq<(Seq<char>, i128)> {
        session_views(self.sessions@)
    }
}

impl SessionStore {
    pub open spec fn wf(&self) -> bool {
        distinct_ids(self@)
    }

    /// When the session `id` expires, if the store holds it.
    pub open spec fn expiry(&self, id: Seq<char>) -> Option<i128> {
        expiry_in(self@, id)
    }

    /// A store without sessions.
    pub fn new() -> (store: SessionStore)
        ensures
            store.wf(),
            store@ == Seq::<(Seq<char>, i128)>::empty(),
            forall|id: Seq<char>| #[trigger] store.expiry(id) is None,
    {
        let store = SessionStore { sessions: Vec::new() };
        assert(store@ =~= Seq::empty());
        store
    }

    /// Records the session `id`, expiring at `expires_at`; a session with
    /// the same id is replaced.
    pub fn insert(&mut self, id: String, expires_at: i128)
        requires
            old(self).wf(),
        ensures
            final(self).wf(),
            forall|other: Seq<char>| #[trigger] final(self).expiry(other) == if other == id@ {
                Some(expires_at)
            } else {
                old(self).expiry(other)
            },
    {
        let ghost before = self@;
        let mut i: usize = 0;
        while i < self.sessions.len()
            invariant
                i <= self.sessions@.len(),
                before == self@,
                before == old(self)@,
                distinct_ids(before),
                self@ == session_views(self.sessions@),
                forall|j: int| 0 <= j < i ==> #[trigger] before[j].0 != id@,
            decreases self.sessions@.len() - i,
        {
            if self.sessions[i].0 == id {
                let ghost idv = id@;
                assert(before[i as int].0 == idv);
                self.sessions.set(i, (id, expires_at));
                proof {
                    assert(self@ =~= before.update(i as int, (before[i as int].0, expires_at)));
                    assert forall|other: Seq<char>| #[trigger] expiry_in(self@, other) == if other
                        == id@ {
                        Some(expires_at)
                    } else {
                        expiry_in(before, other)
                    } by {
                        lemma_expiry_update(before, i as int, expires_at, other);
                    }
                }
                return;
            }
            i = i + 1;
        }
        let ghost idv = id@;
        self.sessions.push((id, expires_at));
        proof {
            assert(self@ =~= before.push((idv, expires_at)));
            assert(self@.drop_last() =~= before);
        }
    }

    /// Whether the lookup belongs to a live session at `now`. Calls from
    /// the server itself are always let through and requests without a
    /// session cookie never; for a session id, expired sessions are dropped
    /// first.
    pub fn is_authenticated(&mut self, lookup: &SessionLookup, now: i128) -> (ok: bool)
        requires
            old(self).wf(),
        ensures
            final(self).wf(),
            match lookup {
                SessionLookup::NoContext => ok && final(self)@ == old(self)@,
                SessionLookup::NoId => !ok && final(self)@ == old(self)@,
                SessionLookup::Id(id) => {
                    &&& ok == (old(self).expiry(id@) matches Some(e) && e > now)
                    &&& forall|other: Seq<char>| #[trigger] final(self).expiry(other) == match old(
                        self,
                    ).expiry(other) {
                        Some(e) => if e > now {
                            Some(e)
                        } else {
                            None
                        },
                        None => None,
                    }
                },
            },
    {
        let id = match lookup {
            SessionLookup::NoContext => return true,
            SessionLookup::NoId => return false,
            SessionLookup::Id(id) => id,
        };
        self.drop_expired(now);
        self.contains(id)
    }

    /// Drops the sessions that expired at or before `now`.
    fn drop_expired(&mut self, now: i128)
        requires
            old(self).wf(),
        ensures
            final(self).wf(),
            forall|other: Seq<char>| #[trigger] final(self).expiry(other) == match old(self).expiry(
                other,
            ) {
                Some(e) => if e > now {
                    Some(e)
                } else {
                    None
                },
                None => None,
            },
    {
        let ghost before = self@;
        let mut kept: Vec<(String, i128)> = Vec::new();
        let mut i: usize = 0;
        while i < self.sessions.len()
            invariant
                i <= self.sessions@.len(),
                before == session_views(self.sessions@),
                distinct_ids(before),
                distinct_ids(session_views(kept@)),
                forall|k: int, j: int|
                    0 <= k < kept@.len() && i <= j < before.len() ==> #[trigger] session_views(
                        kept@,
                    )[k].0 != #[trigger] before[j].0,
                forall|other: Seq<char>| #[trigger] expiry_in(session_views(kept@), other) == match expiry_in(
                    before.take(i as int),
                    other,
                ) {
                    Some(e) => if e > now {
                        Some(e)
                    } else {
                        None
                    },
                    None => None,
                },
            decreases self.sessions@.len() - i,
        {
            let ghost kept_before = session_views(kept@);
            proof {
                assert(before.take(i + 1).drop_last() =~= before.take(i as int));
                assert(before.take(i + 1).last() == before[i as int]);
                assert(before[i as int] == (self.sessions@[i as int].0@, self.sessions@[i as int].1));
            }
            if self.sessions[i].1 > now {
                let entry = (self.sessions[i].0.clone(), self.sessions[i].1);
                kept.push(entry);
                proof {
                    let kv = session_views(kept@);
                    assert(kv =~= kept_before.push(before[i as int]));
                    assert(kv.drop_last() =~= kept_before);
                    assert forall|a: int, b: int| 0 <= a < b < kv.len() implies #[trigger] kv[a].0
                        != #[trigger] kv[b].0 by {
                        if b == kv.len() - 1 {
                            assert(kept_before[a].0 != before[i as int].0);
                        } else {
                            assert(kept_before[a].0 != kept_before[b].0);
                        }
                    }
                    assert forall|k: int, j: int|
                        0 <= k < kept@.len() && i + 1 <= j < before.len() implies #[trigger] kv[k].0
                        != #[trigger] before[j].0 by {
                        if k == kv.len() - 1 {
                            assert(before[i as int].0 != before[j].0);
                        } else {
                            assert(kept_before[k].0 != before[j].0);
                        }
                    }
                }
            } else {
                proof {
                    let other = before[i as int].0;
                    assert forall|k: int| 0 <= k < kept_before.len() implies #[trigger] kept_before[k].0
                        != other by {
                        assert(kept_before[k].0 != before[i as int].0);
                    }
                    lemma_expiry_in_absent(kept_before, other);
                }
            }
            proof {
                let kv = session_views(kept@);
                assert forall|other: Seq<char>| #[trigger] expiry_in(kv, other) == match expiry_in(
                    before.take(i + 1),
                    other,
                ) {
                    Some(e) => if e > now {
                        Some(e)
                    } else {
                        None
                    },
                    None => None,
                } by {
                    assert(expiry_in(before.take(i + 1), other) == if before[i as int].0 == other {
                        Some(before[i as int].1)
                    } else {
                        expiry_in(before.take(i as int), other)
                    });
                    if kv.len() > kept_before.len() {
                        assert(expiry_in(kv, other) == if before[i as int].0 == other {
                            Some(before[i as int].1)
                        } else {
                            expiry_in(kept_before, other)
                        });
                    }
                }
            }
            i = i + 1;
        }
        assert(before.take(before.len() as int) =~= before);
        self.sessions = kept;
    }

    /// Whether the store holds the session `id`.
    fn contains(&self, id: &String) -> (b: bool)
        requires
            self.wf(),
        ensures
            b == self.expiry(id@) is Some,
    {
        let mut i: usize = 0;
        while i < self.sessions.len()
            invariant
                i <= self.sessions@.len(),
                self.wf(),
                forall|j: int| 0 <= j < i ==> #[trigger] self@[j].0 != id@,
            decreases self.sessions@.len() - i,
        {
            if self.sessions[i].0 == *id {
                proof {
                    lemma_expiry_in_at(self@, i as int);
                    assert(self@[i as int].0 == id@);
                }
                return true;
            }
            proof {
                assert(self@[i as int].0 == self.sessions@[i as int].0@);
            }
            i = i + 1;
        }
        proof {
            lemma_expiry_in_absent(self@, id@);
        }
        false
    }
}

proof fn lemma_expiry_update(entries: Seq<(Seq<char>, i128)>, k: int, expires_at: i128, other: Seq<char>)
    requires
        distinct_ids(entries),
        0 <= k < entries.len(),
    ensures
        expiry_in(entries.update(k, (entries[k].0, expires_at)), other) == if other == entries[k].0 {
            Some(expires_at)
        } else {
            expiry_in(entries, other)
        },
    decreases entries.len(),
{
    let updated = entries.update(k, (entries[k].0, expires_at));
    if k == entries.len() - 1 {
        assert(updated.drop_last() =~= entries.drop_last());
    } else {
        assert(updated.drop_last() =~= entries.drop_last().update(k, (entries[k].0, expires_at)));
        let prefix = entries.drop_last();
        assert(distinct_ids(prefix)) by {
            assert forall|i: int, j: int| 0 <= i < j < prefix.len() implies #[trigger] prefix[i].0
                != #[trigger] prefix[j].0 by {
                assert(entries[i].0 != entries[j].0);
            }
        }
        assert(entries.last().0 != entries[k].0);
        lemma_expiry_update(prefix, k, expires_at, other);
    }
}

/// When a session created at `now` expires.
pub fn session_expiry(now: i128) -> (expires_at: i128)
    requires
        now + SESSION_MAX_AGE <= i128::MAX,
    ensures
        expires_at == now + SESSION_MAX_AGE,
{
    now + SESSION_MAX_AGE
}

/// A session created at `created` (so expiring `SESSION_MAX_AGE` later) is
/// accepted before it expires and refused from then on, and once expired
/// sessions were dropped it stays gone.
pub proof fn sessions_last_max_age(created: i128, expiry: Option<i128>, now: i128)
    requires
        created + SESSION_MAX_AGE <= i128::MAX,
        expiry == Some((created + SESSION_MAX_AGE) as i128),
    ensures
        (expiry matches Some(e) && e > now) <==> now < created + SESSION_MAX_AGE,
        now >= created + SESSION_MAX_AGE ==> match expiry {
            Some(e) => if e > now {
                Some(e)
            } else {
                None
            },
            None => None,
        } is None,
{
}

/// The `Set-Cookie` value that starts a session: the session id, readable
/// by the server only, for the whole site, for thirty days.
pub open spec fn session_cookie_text(session_id: Seq<char>) -> Seq<char> {
    session_cookie_name() + seq!['='] + session_id + seq![
        ';', ' ', 'H', 't', 't', 'p', 'O', 'n', 'l', 'y', ';', ' ', 'P', 'a', 't', 'h', '=', '/', ';',
        ' ', 'S', 'a', 'm', 'e', 'S', 'i', 't', 'e', '=', 'L', 'a', 'x', ';', ' ', 'M', 'a', 'x', '-',
        'A', 'g', 'e', '=', '2', '5', '9', '2', '0', '0', '0'
    ]
}

/// The `Set-Cookie` value for the session `session_id`.
pub fn session_cookie(session_id: &str) -> (cookie: String)
    ensures
        cookie@ == session_cookie_text(session_id@),
{
    let name = [
        'd', 'a', 's', 'h', 'b', 'o', 'a', 'r', 'd', '_', 's', 'e', 's', 's', 'i', 'o', 'n', '=',
    ];
    let attributes = [
        ';', ' ', 'H', 't', 't', 'p', 'O', 'n', 'l', 'y', ';', ' ', 'P', 'a', 't', 'h', '=', '/', ';',
        ' ', 'S', 'a', 'm', 'e', 'S', 'i', 't', 'e', '=', 'L', 'a', 'x', ';', ' ', 'M', 'a', 'x', '-',
        'A', 'g', 'e', '=', '2', '5', '9', '2', '0', '0', '0',
    ];
    let id = chars_of(session_id);
    let mut chars: Vec<char> = Vec::new();
    let mut i: usize = 0;
    while i < name.len()
        invariant
            i <= name@.len(),
            chars@ == name@.take(i as int),
        decreases name@.len() - i,
    {
        chars.push(name[i]);
        proof {
            assert(name@.take(i + 1) =~= name@.take(i as int).push(name@[i as int]));
        }
        i = i + 1;
    }
    let ghost head = chars@;
    let mut j: usize = 0;
    while j < id.len()
        invariant
            j <= id@.len(),
            chars@ == head + id@.take(j as int),
        decreases id@.len() - j,
    {
        chars.push(id[j]);
        proof {
            assert(id@.take(j + 1) =~= id@.take(j as int).push(id@[j as int]));
        }
        j = j + 1;
    }
    let ghost middle = chars@;
    let mut k: usize = 0;
    while k < attributes.len()
        invariant
            k <= attributes@.len(),
            chars@ == middle + attributes@.take(k as int),
        decreases attributes@.len() - k,
    {
        chars.push(attributes[k]);
        proof {
            assert(attributes@.take(k + 1) =~= attributes@.take(k as int).push(attributes@[k as int]));
        }
        k = k + 1;
    }
    proof {
        assert(name@.take(name@.len() as int) =~= session_cookie_name() + seq!['=']);
        assert(id@.take(id@.len() as int) =~= session_id@);
        assert(attributes@.take(attributes@.len() as int) =~= session_cookie_text(session_id@).skip(
            (session_cookie_name().len() + 1 + session_id@.len()) as int,
        ));
        assert(chars@ =~= session_cookie_text(session_id@));
    }
    string_from_chars(&chars)
}

/// `argon2::PasswordHash::new` accepts the text as a PHC string.
pub uninterp spec fn phc_hash_parses(text: Seq<char>) -> bool;

/// `argon2::Argon2::default().verify_password` accepts the password (as
/// UTF-8 bytes) for the parsed hash text.
pub uninterp spec fn argon2_accepts(hash_text: Seq<char>, password: Seq<char>) -> bool;

/// Parses the hash with `argon2::PasswordHash::new` and checks the
/// password's UTF-8 bytes against it with `Argon2::default()`'s
/// `verify_password`. Claims: `None` exactly when the hash does not parse,
/// else whether the password verifies; both only as functions of the
/// arguments (the PHC format and Argon2 are not stated).
#[verifier::external_body]
fn argon2_verify(hash_text: &str, password: &str) -> (r: Option<bool>)
    ensures
        r is Some <==> phc_hash_parses(hash_text@),
        r matches Some(ok) ==> ok == argon2_accepts(hash_text@, password@),
{
    let parsed = argon2::PasswordHash::new(hash_text).ok()?;
    Some(argon2::PasswordVerifier::verify_password(&argon2::Argon2::default(), password.as_bytes(), &parsed).is_ok())
}

/// Why a password could not be checked.
#[derive(Debug, Clone, Copy, PartialEq, Eq, Structural)]
pub enum PasswordError {
    /// The stored hash is no PHC string.
    MalformedHash,
}

/// Whether `password` matches the stored Argon2 hash (the contents of the
/// password file); both are trimmed first.
pub fn check_password(stored_hash: &str, password: &str) -> (r: Result<bool, PasswordError>)
    ensures
        phc_hash_parses(trimmed(stored_hash@)) <==> r is Ok,
        r matches Ok(ok) ==> ok == argon2_accepts(trimmed(stored_hash@), trimmed(password@)),
{
    let hash = string_from_chars(&trim_chars(&chars_of(stored_hash)));
    let pass = string_from_chars(&trim_chars(&chars_of(password)));
    match argon2_verify(hash.as_str(), pass.as_str()) {
        Some(ok) => Ok(ok),
        None => Err(PasswordError::MalformedHash),
    }
}

} // verus!
