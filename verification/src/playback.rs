//! Weighted playback: which tracks may be picked, when the next track may be
//! queued, and which playlist the player is playing from.
use vstd::prelude::*;
use crate::text::{chars_of, same_chars};

verus! {

/// Which tracks weighted playback picks from.
#[derive(Debug, Clone, Copy, PartialEq, Eq, Structural)]
pub enum PlaybackSelection {
    Everything,
    RatedOnly,
    UnratedOnly,
}

impl Default for PlaybackSelection {
    fn default() -> (s: Self)
        ensures
            s == PlaybackSelection::Everything,
    {
        PlaybackSelection::Everything
    }
}

impl PlaybackSelection {
    /// The name under which the selection is stored and sent.
    pub open spec fn value_chars(self) -> Seq<char> {
        match self {
            PlaybackSelection::Everything => seq!['e', 'v', 'e', 'r', 'y', 't', 'h', 'i', 'n', 'g'],
            PlaybackSelection::RatedOnly => seq!['r', 'a', 't', 'e', 'd', '-', 'o', 'n', 'l', 'y'],
            PlaybackSelection::UnratedOnly => seq![
                'u',
                'n',
                'r',
                'a',
                't',
                'e',
                'd',
                '-',
                'o',
                'n',
                'l',
                'y',
            ],
        }
    }

    /// The name shown to the user.
    pub open spec fn label_chars(self) -> Seq<char> {
        match self {
            PlaybackSelection::Everything => seq!['E', 'v', 'e', 'r', 'y', 't', 'h', 'i', 'n', 'g'],
            PlaybackSelection::RatedOnly => seq!['R', 'a', 't', 'e', 'd', ' ', 'O', 'n', 'l', 'y'],
            PlaybackSelection::UnratedOnly => seq![
                'U',
                'n',
                'r',
                'a',
                't',
                'e',
                'd',
                ' ',
                'O',
                'n',
                'l',
                'y',
            ],
        }
    }

    pub fn value(self) -> (v: &'static str)
        ensures
            v@ == self.value_chars(),
    {
        match self {
            PlaybackSelection::Everything => {
                proof {
                    reveal_strlit("everything");
                }
                "everything"
            },
            PlaybackSelection::RatedOnly => {
                proof {
                    reveal_strlit("rated-only");
                }
                "rated-only"
            },
            PlaybackSelection::UnratedOnly => {
                proof {
                    reveal_strlit("unrated-only");
                }
                "unrated-only"
            },
        }
    }

    pub fn label(self) -> (l: &'static str)
        ensures
            l@ == self.label_chars(),
    {
        match self {
            PlaybackSelection::Everything => {
                proof {
                    reveal_strlit("Everything");
                }
                "Everything"
            },
            PlaybackSelection::RatedOnly => {
                proof {
                    reveal_strlit("Rated Only");
                }
                "Rated Only"
            },
            PlaybackSelection::UnratedOnly => {
                proof {
                    reveal_strlit("Unrated Only");
                }
                "Unrated Only"
            },
        }
    }

    /// The selection stored under `value`, if any.
    pub fn from_value(value: &str) -> (s: Option<PlaybackSelection>)
        ensures
            s == selection_named(value@),
    {
        let chars = chars_of(value);
        let everything = ['e', 'v', 'e', 'r', 'y', 't', 'h', 'i', 'n', 'g'];
        let rated = ['r', 'a', 't', 'e', 'd', '-', 'o', 'n', 'l', 'y'];
        let unrated = ['u', 'n', 'r', 'a', 't', 'e', 'd', '-', 'o', 'n', 'l', 'y'];
        assert(everything@ =~= PlaybackSelection::Everything.value_chars());
        assert(rated@ =~= PlaybackSelection::RatedOnly.value_chars());
        assert(unrated@ =~= PlaybackSelection::UnratedOnly.value_chars());
        if same_chars(&chars, &everything) {
            Some(PlaybackSelection::Everything)
        } else if same_chars(&chars, &rated) {
            Some(PlaybackSelection::RatedOnly)
        } else if same_chars(&chars, &unrated) {
            Some(PlaybackSelection::UnratedOnly)
        } else {
            None
        }
    }

    /// Whether the selection lets a track that is (or is not) rated be picked.
    pub fn admits(self, is_rated: bool) -> (b: bool)
        ensures
            b == match self {
                PlaybackSelection::Everything => true,
                PlaybackSelection::RatedOnly => is_rated,
                PlaybackSelection::UnratedOnly => !is_rated,
            },
    {
        match self {
            PlaybackSelection::Everything => true,
            PlaybackSelection::RatedOnly => is_rated,
            PlaybackSelection::UnratedOnly => !is_rated,
        }
    }
}

/// The selection stored under a name.
pub open spec fn selection_named(name: Seq<char>) -> Option<PlaybackSelection> {
    if name == PlaybackSelection::Everything.value_chars() {
        Some(PlaybackSelection::Everything)
    } else if name == PlaybackSelection::RatedOnly.value_chars() {
        Some(PlaybackSelection::RatedOnly)
    } else if name == PlaybackSelection::UnratedOnly.value_chars() {
        Some(PlaybackSelection::UnratedOnly)
    } else {
        None
    }
}

/// Reading back the stored name of a selection gives the selection.
pub proof fn selection_value_round_trips(sel: PlaybackSelection)
    ensures
        selection_named(sel.value_chars()) == Some(sel),
{
    lemma_values_distinct(sel, PlaybackSelection::Everything);
    lemma_values_distinct(sel, PlaybackSelection::RatedOnly);
}

proof fn lemma_values_distinct(sel: PlaybackSelection, other: PlaybackSelection)
    ensures
        sel.value_chars() == other.value_chars() ==> sel == other,
{
    if sel != other {
        match (sel, other) {
            (PlaybackSelection::Everything, PlaybackSelection::RatedOnly)
            | (PlaybackSelection::RatedOnly, PlaybackSelection::Everything) => {
                assert(sel.value_chars()[0] != other.value_chars()[0]);
            },
            (PlaybackSelection::Everything, PlaybackSelection::UnratedOnly)
            | (PlaybackSelection::UnratedOnly, PlaybackSelection::Everything) => {
                assert(sel.value_chars()[0] != other.value_chars()[0]);
            },
            (PlaybackSelection::RatedOnly, PlaybackSelection::UnratedOnly)
            | (PlaybackSelection::UnratedOnly, PlaybackSelection::RatedOnly) => {
                assert(sel.value_chars().len() != other.value_chars().len());
            },
            _ => {},
        }
    }
}

/// Whether weighted playback may pick a track that is (or is not) rated and
/// whose rating does (or does not) reach the cutoff.
pub open spec fn eligible(selection: PlaybackSelection, is_rated: bool, meets_cutoff: bool) -> bool {
    meets_cutoff && match selection {
        PlaybackSelection::Everything => true,
        PlaybackSelection::RatedOnly => is_rated,
        PlaybackSelection::UnratedOnly => !is_rated,
    }
}

/// The positions, in order, of the tracks weighted playback may pick; each
/// track is given as (is rated, rating reaches the cutoff).
pub fn eligible_tracks(tracks: &Vec<(bool, bool)>, selection: PlaybackSelection) -> (picks: Vec<usize>)
    ensures
        forall|k: int, l: int| 0 <= k < l < picks@.len() ==> #[trigger] picks@[k] < #[trigger] picks@[l],
        forall|k: int|
            0 <= k < picks@.len() ==> #[trigger] picks@[k] < tracks@.len() && eligible(
                selection,
                tracks@[picks@[k] as int].0,
                tracks@[picks@[k] as int].1,
            ),
        forall|i: int|
            0 <= i < tracks@.len() && eligible(selection, tracks@[i].0, tracks@[i].1) ==> picks@.contains(
                i as usize,
            ),
{
    let mut picks: Vec<usize> = Vec::new();
    let mut i: usize = 0;
    while i < tracks.len()
        invariant
            i <= tracks@.len(),
            forall|k: int, l: int| 0 <= k < l < picks@.len() ==> #[trigger] picks@[k] < #[trigger] picks@[l],
            forall|k: int| 0 <= k < picks@.len() ==> #[trigger] picks@[k] < i,
            forall|k: int|
                0 <= k < picks@.len() ==> eligible(
                    selection,
                    tracks@[#[trigger] picks@[k] as int].0,
                    tracks@[picks@[k] as int].1,
                ),
            forall|j: int|
                0 <= j < i && eligible(selection, tracks@[j].0, tracks@[j].1) ==> picks@.contains(
                    j as usize,
                ),
        decreases tracks@.len() - i,
    {
        let (is_rated, meets_cutoff) = tracks[i];
        let ghost before = picks@;
        if meets_cutoff && selection.admits(is_rated) {
            picks.push(i);
            proof {
                assert(picks@[picks@.len() - 1] == i);
            }
        }
        proof {
            assert forall|j: int|
                0 <= j < i + 1 && eligible(selection, tracks@[j].0, tracks@[j].1) implies picks@.contains(
                j as usize,
            ) by {
                if j < i {
                    let k = choose|k: int| 0 <= k < before.len() && before[k] == j as usize;
                    assert(picks@[k] == before[k]);
                } else {
                    assert(picks@[picks@.len() - 1] == i);
                }
            }
        }
        i = i + 1;
    }
    picks
}

/// A track as ratings and the queue identify it: its name and the names of
/// its artists.
#[derive(Debug)]
pub struct Song {
    pub name: String,
    pub artists: Vec<String>,
}

impl View for Song {
    type V = (Seq<char>, Seq<Seq<char>>);

    open spec fn view(&self) -> (Seq<char>, Seq<Seq<char>>) {
        (self.name@, self.artists@.map_values(|a: String| a@))
    }
}

impl Song {
    /// A copy of the song.
    pub fn duplicate(&self) -> (s: Song)
        ensures
            s@ == self@,
    {
        let mut artists: Vec<String> = Vec::new();
        let mut i: usize = 0;
        while i < self.artists.len()
            invariant
                i <= self.artists@.len(),
                artists@.len() == i,
                forall|j: int| 0 <= j < i ==> #[trigger] artists@[j]@ == self.artists@[j]@,
            decreases self.artists@.len() - i,
        {
            artists.push(self.artists[i].clone());
            i = i + 1;
        }
        assert(artists@.map_values(|a: String| a@) =~= self.artists@.map_values(|a: String| a@));
        Song { name: self.name.clone(), artists }
    }

    /// Whether both name the same track.
    pub fn same_as(&self, other: &Song) -> (b: bool)
        ensures
            b == (self@ == other@),
    {
        if self.name != other.name || self.artists.len() != other.artists.len() {
            proof {
                if self.artists.len() != other.artists.len() {
                    assert(self@.1.len() != other@.1.len());
                }
            }
            return false;
        }
        let mut i: usize = 0;
        while i < self.artists.len()
            invariant
                i <= self.artists@.len(),
                self.artists@.len() == other.artists@.len(),
                forall|j: int| 0 <= j < i ==> self.artists@[j]@ == other.artists@[j]@,
            decreases self.artists@.len() - i,
        {
            if self.artists[i] != other.artists[i] {
                assert(self@.1[i as int] != other@.1[i as int]);
                return false;
            }
            i = i + 1;
        }
        assert(self@.1 =~= other@.1);
        true
    }
}

/// The saved tracks as a map from song to track id.
pub open spec fn saved_map(saved: Seq<(Song, String)>) -> Map<(Seq<char>, Seq<Seq<char>>), Seq<char>>
    decreases saved.len(),
{
    if saved.len() == 0 {
        Map::empty()
    } else {
        saved_map(saved.drop_last()).insert(saved.last().0@, saved.last().1@)
    }
}

/// No song occurs twice among the saved tracks.
pub open spec fn distinct_songs(saved: Seq<(Song, String)>) -> bool {
    forall|i: int, j: int| 0 <= i < j < saved.len() ==> #[trigger] saved[i].0@ != #[trigger] saved[j].0@
}

proof fn lemma_saved_map_update(saved: Seq<(Song, String)>, k: int, entry: (Song, String))
    requires
        distinct_songs(saved),
        0 <= k < saved.len(),
        entry.0@ == saved[k].0@,
    ensures
        saved_map(saved.update(k, entry)) == saved_map(saved).insert(entry.0@, entry.1@),
        distinct_songs(saved.update(k, entry)),
    decreases saved.len(),
{
    let updated = saved.update(k, entry);
    assert forall|i: int, j: int| 0 <= i < j < updated.len() implies #[trigger] updated[i].0@
        != #[trigger] updated[j].0@ by {
        assert(saved[i].0@ != saved[j].0@);
    }
    if k == saved.len() - 1 {
        assert(updated.drop_last() =~= saved.drop_last());
        assert(saved_map(updated) =~= saved_map(saved).insert(entry.0@, entry.1@));
    } else {
        let prefix = saved.drop_last();
        assert(updated.drop_last() =~= prefix.update(k, entry));
        assert forall|i: int, j: int| 0 <= i < j < prefix.len() implies #[trigger] prefix[i].0@
            != #[trigger] prefix[j].0@ by {
            assert(saved[i].0@ != saved[j].0@);
        }
        lemma_saved_map_update(prefix, k, entry);
        assert(saved.last().0@ != entry.0@) by {
            assert(saved[k].0@ != saved[saved.len() - 1].0@);
        }
        assert(saved_map(updated) =~= saved_map(saved).insert(entry.0@, entry.1@));
    }
}

proof fn lemma_saved_map_absent(saved: Seq<(Song, String)>, song: (Seq<char>, Seq<Seq<char>>))
    requires
        forall|i: int| 0 <= i < saved.len() ==> #[trigger] saved[i].0@ != song,
    ensures
        !saved_map(saved).contains_key(song),
    decreases saved.len(),
{
    if saved.len() > 0 {
        lemma_saved_map_absent(saved.drop_last(), song);
    }
}

/// Records that `song` is saved with id `track_id`, as a map insertion, and
/// tells whether the song was already known; fetching saved tracks, newest
/// first, stops at the first known one.
pub fn insert_saved_track(saved: &mut Vec<(Song, String)>, song: Song, track_id: String) -> (known: bool)
    requires
        distinct_songs(old(saved)@),
    ensures
        distinct_songs(final(saved)@),
        saved_map(final(saved)@) == saved_map(old(saved)@).insert(song@, track_id@),
        known == saved_map(old(saved)@).contains_key(song@),
{
    let ghost before = saved@;
    let ghost song_view = song@;
    let ghost id_view = track_id@;
    let mut i: usize = 0;
    while i < saved.len()
        invariant
            i <= saved@.len(),
            before == saved@,
            before == old(saved)@,
            distinct_songs(before),
            song@ == song_view,
            forall|j: int| 0 <= j < i ==> #[trigger] before[j].0@ != song_view,
        decreases saved@.len() - i,
    {
        if saved[i].0.same_as(&song) {
            proof {
                lemma_saved_map_contains(before, i as int);
                lemma_saved_map_update(before, i as int, (song, track_id));
            }
            saved.set(i, (song, track_id));
            return true;
        }
        i = i + 1;
    }
    proof {
        lemma_saved_map_absent(before, song_view);
    }
    saved.push((song, track_id));
    proof {
        assert(saved@.drop_last() =~= before);
        assert forall|a: int, b: int| 0 <= a < b < saved@.len() implies #[trigger] saved@[a].0@
            != #[trigger] saved@[b].0@ by {
            if b == saved@.len() - 1 {
                assert(before[a].0@ != song_view);
            } else {
                assert(before[a].0@ != before[b].0@);
            }
        }
    }
    false
}

proof fn lemma_saved_map_contains(saved: Seq<(Song, String)>, k: int)
    requires
        0 <= k < saved.len(),
    ensures
        saved_map(saved).contains_key(saved[k].0@),
    decreases saved.len(),
{
    if k < saved.len() - 1 {
        lemma_saved_map_contains(saved.drop_last(), k);
    }
}

/// How often `song` occurs in `queue`.
pub open spec fn occurrences(queue: Seq<(Seq<char>, Seq<Seq<char>>)>, song: (Seq<char>, Seq<Seq<char>>)) -> nat
    decreases queue.len(),
{
    if queue.len() == 0 {
        0
    } else {
        occurrences(queue.drop_last(), song) + if queue.last() == song {
            1nat
        } else {
            0
        }
    }
}

/// The views of the songs.
pub open spec fn song_views(songs: Seq<Song>) -> Seq<(Seq<char>, Seq<Seq<char>>)> {
    songs.map_values(|s: Song| s@)
}

/// How often `song` is in the queue of tracks.
pub fn count_in_queue(queue: &Vec<Song>, song: &Song) -> (n: usize)
    ensures
        n == occurrences(song_views(queue@), song@),
{
    let mut n: usize = 0;
    let mut i: usize = 0;
    while i < queue.len()
        invariant
            i <= queue@.len(),
            n == occurrences(song_views(queue@).take(i as int), song@),
            n <= i,
        decreases queue@.len() - i,
    {
        proof {
            assert(song_views(queue@).take(i + 1).drop_last() =~= song_views(queue@).take(i as int));
        }
        if queue[i].same_as(song) {
            n = n + 1;
        }
        i = i + 1;
    }
    assert(song_views(queue@).take(queue@.len() as int) =~= song_views(queue@));
    n
}

/// Whether another song may be queued: the last queued song, which was
/// expected in the queue `times` times, must have been played, that is, be
/// in the queue fewer times now.
pub fn may_queue_another(last_queued: &Option<(Song, usize)>, queue: &Vec<Song>) -> (b: bool)
    ensures
        b == match last_queued {
            None => true,
            Some((song, times)) => occurrences(song_views(queue@), song@) < *times,
        },
{
    match last_queued {
        None => true,
        Some((song, times)) => count_in_queue(queue, song) < *times,
    }
}

/// What to remember after queueing `song` onto `queue` (as it was before):
/// the song and how often it should then be in the queue.
pub fn queued_marker(song: &Song, queue: &Vec<Song>) -> (marker: (Song, usize))
    requires
        queue@.len() < usize::MAX,
    ensures
        marker.0@ == song@,
        marker.1 == occurrences(song_views(queue@), song@) + 1,
{
    let n = count_in_queue(queue, song);
    proof {
        lemma_occurrences_bounded(song_views(queue@), song@);
    }
    (song.duplicate(), n + 1)
}

proof fn lemma_occurrences_bounded(queue: Seq<(Seq<char>, Seq<Seq<char>>)>, song: (Seq<char>, Seq<Seq<char>>))
    ensures
        occurrences(queue, song) <= queue.len(),
    decreases queue.len(),
{
    if queue.len() > 0 {
        lemma_occurrences_bounded(queue.drop_last(), song);
    }
}

/// Once a song has been queued, no further song may be queued while the
/// queue (as fetched before queueing) is unchanged or holds the song more
/// often.
pub proof fn queueing_waits_for_the_queued_song(
    queue_before: Seq<(Seq<char>, Seq<Seq<char>>)>,
    queue_now: Seq<(Seq<char>, Seq<Seq<char>>)>,
    song: (Seq<char>, Seq<Seq<char>>),
    times: nat,
)
    requires
        times == occurrences(queue_before, song) + 1,
        occurrences(queue_now, song) >= occurrences(queue_before, song) + 1,
    ensures
        !(occurrences(queue_now, song) < times),
{
}

/// The ASCII letters and digits.
pub open spec fn is_ascii_alphanumeric(c: char) -> bool {
    ('0' <= c <= '9') || ('a' <= c <= 'z') || ('A' <= c <= 'Z')
}

/// `rspotify_model::PlaylistId::id_is_valid`: claims that an id is valid
/// exactly when every character is an ASCII letter or digit (the empty id
/// included), as its validity closure states.
#[verifier::external_body]
fn playlist_id_is_valid(id: &str) -> (b: bool)
    ensures
        b == forall|i: int| 0 <= i < id@.len() ==> is_ascii_alphanumeric(#[trigger] id@[i]),
{
    rspotify_model::PlaylistId::id_is_valid(id)
}

/// Why a playback context does not name a playlist.
#[derive(Debug, Clone, Copy, PartialEq, Eq, Structural)]
pub enum ContextUriError {
    /// The URI does not start with `spotify:playlist:`.
    NotAPlaylist,
    /// The id holds a character other than an ASCII letter or digit.
    InvalidId,
}

/// The prefix of playlist URIs.
pub open spec fn playlist_uri_prefix() -> Seq<char> {
    seq!['s', 'p', 'o', 't', 'i', 'f', 'y', ':', 'p', 'l', 'a', 'y', 'l', 'i', 's', 't', ':']
}

/// The playlist id of a context URI of type playlist: what follows the
/// `spotify:playlist:` prefix, when that is a valid playlist id.
pub fn playlist_id_from_context_uri(uri: &str) -> (r: Result<String, ContextUriError>)
    ensures
        match r {
            Ok(id) => {
                &&& uri@.len() >= playlist_uri_prefix().len()
                &&& uri@.take(playlist_uri_prefix().len() as int) == playlist_uri_prefix()
                &&& id@ == uri@.skip(playlist_uri_prefix().len() as int)
                &&& forall|i: int| 0 <= i < id@.len() ==> is_ascii_alphanumeric(#[trigger] id@[i])
            },
            Err(ContextUriError::NotAPlaylist) => !(uri@.len() >= playlist_uri_prefix().len()
                && uri@.take(playlist_uri_prefix().len() as int) == playlist_uri_prefix()),
            Err(ContextUriError::InvalidId) => {
                &&& uri@.len() >= playlist_uri_prefix().len()
                &&& uri@.take(playlist_uri_prefix().len() as int) == playlist_uri_prefix()
                &&& !forall|i: int|
                    0 <= i < uri@.len() - playlist_uri_prefix().len() ==> is_ascii_alphanumeric(
                        #[trigger] uri@[i + playlist_uri_prefix().len()],
                    )
            },
        },
{
    let chars = chars_of(uri);
    let prefix = [
        's',
        'p',
        'o',
        't',
        'i',
        'f',
        'y',
        ':',
        'p',
        'l',
        'a',
        'y',
        'l',
        'i',
        's',
        't',
        ':',
    ];
    assert(prefix@ =~= playlist_uri_prefix());
    if chars.len() < prefix.len() {
        return Err(ContextUriError::NotAPlaylist);
    }
    let mut i: usize = 0;
    while i < prefix.len()
        invariant
            i <= prefix@.len(),
            prefix@ == playlist_uri_prefix(),
            chars@ == uri@,
            chars@.len() >= prefix@.len(),
            forall|j: int| 0 <= j < i ==> chars@[j] == prefix@[j],
        decreases prefix@.len() - i,
    {
        if chars[i] != prefix[i] {
            assert(uri@.take(prefix@.len() as int)[i as int] != playlist_uri_prefix()[i as int]);
            return Err(ContextUriError::NotAPlaylist);
        }
        i = i + 1;
    }
    assert(uri@.take(prefix@.len() as int) =~= playlist_uri_prefix());
    let mut id = String::new();
    let mut k: usize = prefix.len();
    while k < chars.len()
        invariant
            prefix@.len() <= k <= chars@.len(),
            chars@ == uri@,
            prefix@ == playlist_uri_prefix(),
            id@ == uri@.subrange(prefix@.len() as int, k as int),
        decreases chars@.len() - k,
    {
        crate::text::push_char(&mut id, chars[k]);
        proof {
            assert(uri@.subrange(prefix@.len() as int, k + 1) =~= uri@.subrange(
                prefix@.len() as int,
                k as int,
            ).push(uri@[k as int]));
        }
        k = k + 1;
    }
    assert(id@ =~= uri@.skip(prefix@.len() as int));
    if playlist_id_is_valid(id.as_str()) {
        Ok(id)
    } else {
        proof {
            let bad = choose|j: int| 0 <= j < id@.len() && !is_ascii_alphanumeric(#[trigger] id@[j]);
            assert(id@[bad] == uri@[bad + playlist_uri_prefix().len()]);
        }
        Err(ContextUriError::InvalidId)
    }
}

/// What a context URI of type playlist names: the playlist id after the
/// `spotify:playlist:` prefix, or why it names none.
pub open spec fn playlist_context_id(uri: Seq<char>) -> Result<Seq<char>, ContextUriError> {
    let n = playlist_uri_prefix().len() as int;
    if !(uri.len() >= n && uri.take(n) == playlist_uri_prefix()) {
        Err(ContextUriError::NotAPlaylist)
    } else if forall|i: int| 0 <= i < uri.skip(n).len() ==> is_ascii_alphanumeric(#[trigger] uri.skip(n)[i]) {
        Ok(uri.skip(n))
    } else {
        Err(ContextUriError::InvalidId)
    }
}

/// The kind of context the player is playing from.
#[derive(Debug, Clone, Copy, PartialEq, Eq, Structural)]
pub enum ContextKind {
    Playlist,
    /// The saved tracks of the user.
    Collection,
    Other,
}

/// Where weighted playback takes its tracks from.
#[derive(Debug, PartialEq, Eq)]
pub enum TrackSource {
    /// The playlist with this id.
    Playlist(String),
    /// The saved tracks of the user.
    SavedTracks,
    /// A playlist context whose URI names no playlist.
    Unusable(ContextUriError),
    /// A context weighted playback does not pick from.
    Nowhere,
}

/// Where weighted playback takes its tracks from, for a context of `kind`
/// with URI `uri`.
pub fn track_source(kind: ContextKind, uri: &str) -> (r: TrackSource)
    ensures
        match kind {
            ContextKind::Playlist => match playlist_context_id(uri@) {
                Ok(id) => r matches TrackSource::Playlist(p) && p@ == id,
                Err(e) => r == TrackSource::Unusable(e),
            },
            ContextKind::Collection => r == TrackSource::SavedTracks,
            ContextKind::Other => r == TrackSource::Nowhere,
        },
{
    match kind {
        ContextKind::Playlist => {
            let ghost n = playlist_uri_prefix().len() as int;
            match playlist_id_from_context_uri(uri) {
                Ok(id) => {
                    proof {
                        assert(id@ == uri@.skip(n));
                    }
                    TrackSource::Playlist(id)
                },
                Err(e) => {
                    proof {
                        if e == ContextUriError::InvalidId {
                            let bad = choose|j: int|
                                0 <= j < uri@.len() - n && !is_ascii_alphanumeric(#[trigger] uri@[j + n]);
                            assert(uri@.skip(n)[bad] == uri@[bad + n]);
                        }
                    }
                    TrackSource::Unusable(e)
                },
            }
        },
        ContextKind::Collection => TrackSource::SavedTracks,
        ContextKind::Other => TrackSource::Nowhere,
    }
}

/// Of the playlists kept for one rating, given by their track counts, the
/// first one with the fewest tracks; none when there are none.
pub fn fewest_tracks(totals: &Vec<u32>) -> (r: Option<usize>)
    ensures
        r is None <==> totals@.len() == 0,
        r matches Some(i) ==> {
            &&& i < totals@.len()
            &&& forall|j: int| 0 <= j < totals@.len() ==> totals@[i as int] <= #[trigger] totals@[j]
            &&& forall|j: int| 0 <= j < i ==> totals@[i as int] < #[trigger] totals@[j]
        },
{
    if totals.len() == 0 {
        return None;
    }
    let mut best: usize = 0;
    let mut k: usize = 1;
    while k < totals.len()
        invariant
            1 <= k <= totals@.len(),
            best < k,
            forall|j: int| 0 <= j < k ==> totals@[best as int] <= #[trigger] totals@[j],
            forall|j: int| 0 <= j < best ==> totals@[best as int] < #[trigger] totals@[j],
        decreases totals@.len() - k,
    {
        if totals[k] < totals[best] {
            best = k;
        }
        k = k + 1;
    }
    Some(best)
}

/// The line under the weighted-playback switch.
#[derive(Debug, Clone, Copy, PartialEq, Eq, Structural)]
pub enum SwitchHint {
    /// Weighted playback is only available while a playlist plays.
    NoPlaylist,
    /// The options are being saved.
    Saving,
    /// What weighted playback does.
    Explain,
}

/// How the weighted-playback switch is shown.
#[derive(Debug, Clone, Copy, PartialEq, Eq, Structural)]
pub struct SwitchView {
    /// The switch is on.
    pub checked: bool,
    /// The switch cannot be flipped.
    pub disabled: bool,
    pub hint: SwitchHint,
}

/// The weighted-playback switch: `loaded` when the playback options were
/// read, `on_playlist` while a playlist plays, `enabled` when weighted
/// playback is on for it, `pending` while the options are being saved.
pub fn weighted_playback_switch(loaded: bool, on_playlist: bool, enabled: bool, pending: bool) -> (s: SwitchView)
    ensures
        s.checked == (loaded && on_playlist && enabled),
        s.disabled == (!on_playlist || pending),
        s.hint == if !on_playlist {
            SwitchHint::NoPlaylist
        } else if pending {
            SwitchHint::Saving
        } else {
            SwitchHint::Explain
        },
{
    let hint = if !on_playlist {
        SwitchHint::NoPlaylist
    } else if pending {
        SwitchHint::Saving
    } else {
        SwitchHint::Explain
    };
    SwitchView { checked: loaded && on_playlist && enabled, disabled: !on_playlist || pending, hint }
}

} // verus!
