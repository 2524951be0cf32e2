//! The genres of a track, gathered from its artists' Spotify genres and
//! last.fm tags.
use vstd::prelude::*;

verus! {

/// What `str::to_lowercase` makes of a string (Unicode lowercase mapping).
pub uninterp spec fn lowercased(s: Seq<char>) -> Seq<char>;

/// `str::to_lowercase`: claims only that the result is a function of the
/// input (named `lowercased`); the Unicode mapping itself is not stated.
#[verifier::external_body]
pub(crate) fn to_lowercase(s: &str) -> (r: String)
    ensures
        r@ == lowercased(s@),
{
    s.to_lowercase()
}

/// The views of some strings.
pub open spec fn string_views(v: Seq<String>) -> Seq<Seq<char>> {
    v.map_values(|s: String| s@)
}

/// The lowercased names.
pub open spec fn lowercased_set(names: Seq<Seq<char>>) -> Set<Seq<char>> {
    names.map_values(|n: Seq<char>| lowercased(n)).to_set()
}

/// An artist of a track with the genre names found for it (Spotify genres
/// and last.fm tags, and for the first artist the track's own last.fm tags).
pub struct ArtistGenres {
    pub name: String,
    pub genres: Vec<String>,
}

impl View for ArtistGenres {
    type V = (Seq<char>, Seq<Seq<char>>);

    open spec fn view(&self) -> (Seq<char>, Seq<Seq<char>>) {
        (self.name@, string_views(self.genres@))
    }
}

/// Artist after artist: add the artist's genres, lowercased, then drop the
/// artist's own name, lowercased.
pub open spec fn artists_genre_set(artists: Seq<(Seq<char>, Seq<Seq<char>>)>) -> Set<Seq<char>>
    decreases artists.len(),
{
    if artists.len() == 0 {
        Set::empty()
    } else {
        artists_genre_set(artists.drop_last()).union(lowercased_set(artists.last().1)).remove(
            lowercased(artists.last().0),
        )
    }
}

/// The genres of a track: those of its artists, without the track's own
/// name, lowercased.
pub open spec fn track_genre_set(track: Seq<char>, artists: Seq<(Seq<char>, Seq<Seq<char>>)>) -> Set<
    Seq<char>,
> {
    artists_genre_set(artists).remove(lowercased(track))
}

/// The position of a string equal to `s`, if any.
fn position_of(v: &Vec<String>, s: &String) -> (r: Option<usize>)
    ensures
        r matches Some(i) ==> i < v@.len() && v@[i as int]@ == s@,
        r is None ==> !string_views(v@).contains(s@),
{
    let mut i: usize = 0;
    while i < v.len()
        invariant
            i <= v@.len(),
            forall|j: int| 0 <= j < i ==> v@[j]@ != s@,
        decreases v@.len() - i,
    {
        if v[i] == *s {
            return Some(i);
        }
        i = i + 1;
    }
    assert forall|j: int| 0 <= j < string_views(v@).len() implies string_views(v@)[j] != s@ by {}
    None
}

/// Adds `s` to the set held in `v`.
fn set_insert(v: &mut Vec<String>, s: String)
    requires
        string_views(old(v)@).no_duplicates(),
    ensures
        string_views(final(v)@).no_duplicates(),
        string_views(final(v)@).to_set() == string_views(old(v)@).to_set().insert(s@),
{
    match position_of(v, &s) {
        Some(i) => {
            assert(string_views(v@)[i as int] == s@);
            assert(string_views(v@).to_set() =~= string_views(v@).to_set().insert(s@));
        },
        None => {
            let ghost before = string_views(v@);
            v.push(s);
            assert(string_views(v@) =~= before.push(s@));
            assert(string_views(v@).to_set() =~= before.to_set().insert(s@)) by {
                assert forall|x: Seq<char>| string_views(v@).contains(x) <==> before.to_set().insert(
                    s@,
                ).contains(x) by {
                    if x != s@ && string_views(v@).contains(x) {
                        let k = choose|k: int| 0 <= k < string_views(v@).len() && string_views(v@)[k] == x;
                        assert(before[k] == x);
                    }
                    if before.contains(x) {
                        let k = choose|k: int| 0 <= k < before.len() && before[k] == x;
                        assert(string_views(v@)[k] == x);
                    }
                    if x == s@ {
                        assert(string_views(v@)[before.len() as int] == x);
                    }
                }
            }
        },
    }
}

/// Removes `s` from the set held in `v`.
fn set_remove(v: &mut Vec<String>, s: &String)
    requires
        string_views(old(v)@).no_duplicates(),
    ensures
        string_views(final(v)@).no_duplicates(),
        string_views(final(v)@).to_set() == string_views(old(v)@).to_set().remove(s@),
{
    match position_of(v, s) {
        Some(i) => {
            let ghost before = string_views(v@);
            v.remove(i);
            assert(string_views(v@) =~= before.remove(i as int));
            assert(string_views(v@).to_set() =~= before.to_set().remove(s@)) by {
                assert forall|x: Seq<char>| string_views(v@).contains(x) <==> before.to_set().remove(
                    s@,
                ).contains(x) by {
                    if string_views(v@).contains(x) {
                        let k = choose|k: int| 0 <= k < string_views(v@).len() && string_views(v@)[k] == x;
                        assert(before[i as int] == s@);
                        if k < i {
                            assert(before[k] == x);
                            assert(before[k] != before[i as int]);
                        } else {
                            assert(before[k + 1] == x);
                            assert(before[k + 1] != before[i as int]);
                        }
                        assert(before.contains(x));
                    }
                    if before.contains(x) && x != s@ {
                        let k = choose|k: int| 0 <= k < before.len() && before[k] == x;
                        assert(k != i);
                        if k < i {
                            assert(string_views(v@)[k] == x);
                        } else {
                            assert(string_views(v@)[k - 1] == x);
                        }
                    }
                }
            }
        },
        None => {
            assert(string_views(v@).to_set() =~= string_views(v@).to_set().remove(s@));
        },
    }
}

/// The genres of a track named `track_name` whose artists are `artists`,
/// without duplicates.
pub fn collect_genres(track_name: &str, artists: &Vec<ArtistGenres>) -> (genres: Vec<String>)
    ensures
        string_views(genres@).no_duplicates(),
        string_views(genres@).to_set() == track_genre_set(
            track_name@,
            artists@.map_values(|a: ArtistGenres| a@),
        ),
{
    let ghost artist_views = artists@.map_values(|a: ArtistGenres| a@);
    let mut genres: Vec<String> = Vec::new();
    assert(string_views(genres@).to_set() =~= Set::empty());
    let mut i: usize = 0;
    while i < artists.len()
        invariant
            i <= artists@.len(),
            artist_views == artists@.map_values(|a: ArtistGenres| a@),
            string_views(genres@).no_duplicates(),
            string_views(genres@).to_set() == artists_genre_set(artist_views.take(i as int)),
        decreases artists@.len() - i,
    {
        let artist = &artists[i];
        let ghost before = string_views(genres@).to_set();
        let mut j: usize = 0;
        while j < artist.genres.len()
            invariant
                j <= artist.genres@.len(),
                string_views(genres@).no_duplicates(),
                string_views(genres@).to_set() == before.union(
                    lowercased_set(string_views(artist.genres@).take(j as int)),
                ),
            decreases artist.genres@.len() - j,
        {
            let lower = to_lowercase(artist.genres[j].as_str());
            set_insert(&mut genres, lower);
            proof {
                let names = string_views(artist.genres@);
                assert(names.take(j + 1).map_values(|n: Seq<char>| lowercased(n)) =~= names.take(
                    j as int,
                ).map_values(|n: Seq<char>| lowercased(n)).push(lowercased(names[j as int])));
                names.take(j as int).map_values(|n: Seq<char>| lowercased(n)).lemma_push_to_set_commute(
                    lowercased(names[j as int]),
                );
                assert(string_views(genres@).to_set() =~= before.union(
                    lowercased_set(names.take(j + 1)),
                ));
            }
            j = j + 1;
        }
        proof {
            assert(string_views(artist.genres@).take(artist.genres@.len() as int) =~= string_views(
                artist.genres@,
            ));
        }
        let artist_name = to_lowercase(artist.name.as_str());
        set_remove(&mut genres, &artist_name);
        proof {
            assert(artist_views.take(i + 1).drop_last() =~= artist_views.take(i as int));
            assert(artist_views[i as int] == artist@);
        }
        i = i + 1;
    }
    assert(artist_views.take(artists@.len() as int) =~= artist_views);
    let track = to_lowercase(track_name);
    set_remove(&mut genres, &track);
    genres
}

/// A track never has its own name, nor the name of its last artist, as a
/// genre.
pub proof fn genres_exclude_own_names(track: Seq<char>, artists: Seq<(Seq<char>, Seq<Seq<char>>)>)
    ensures
        !track_genre_set(track, artists).contains(lowercased(track)),
        artists.len() > 0 ==> !artists_genre_set(artists).contains(lowercased(artists.last().0)),
{
}

/// Every genre of a track is the lowercased genre of one of its artists.
pub proof fn genres_come_from_artists(track: Seq<char>, artists: Seq<(Seq<char>, Seq<Seq<char>>)>, g: Seq<char>)
    requires
        track_genre_set(track, artists).contains(g),
    ensures
        exists|i: int| 0 <= i < artists.len() && #[trigger] lowercased_set(artists[i].1).contains(g),
{
    lemma_genres_come_from_artists(artists, g);
}

proof fn lemma_genres_come_from_artists(artists: Seq<(Seq<char>, Seq<Seq<char>>)>, g: Seq<char>)
    requires
        artists_genre_set(artists).contains(g),
    ensures
        exists|i: int| 0 <= i < artists.len() && #[trigger] lowercased_set(artists[i].1).contains(g),
    decreases artists.len(),
{
    let last = artists.len() - 1;
    if lowercased_set(artists[last].1).contains(g) {
    } else {
        lemma_genres_come_from_artists(artists.drop_last(), g);
        let i = choose|i: int|
            0 <= i < artists.drop_last().len() && #[trigger] lowercased_set(
                artists.drop_last()[i].1,
            ).contains(g);
        assert(artists[i] == artists.drop_last()[i]);
    }
}

/// A last.fm tag with its weight.
pub struct LastFmTag {
    pub name: String,
    pub count: u32,
}

/// Why last.fm gave no tags.
pub struct TopTagsError {
    pub error: Option<u8>,
    pub message: Option<String>,
}

/// The last.fm error code for an unknown artist or track.
pub const LASTFM_NOT_FOUND: u8 = 6;

/// The tags of a last.fm top-tags reply: its tags when it has them, none
/// when last.fm does not know the artist or track, and an error otherwise.
pub fn top_tags_from_reply(toptags: Option<Vec<LastFmTag>>, error: Option<u8>, message: Option<String>) -> (r:
    Result<Vec<LastFmTag>, TopTagsError>)
    ensures
        match toptags {
            Some(tags) => r matches Ok(t) && t@ == tags@,
            None => if error == Some(LASTFM_NOT_FOUND) {
                r matches Ok(t) && t@.len() == 0
            } else {
                r matches Err(e) && e.error == error && e.message == message
            },
        },
{
    match toptags {
        Some(tags) => Ok(tags),
        None => {
            match error {
                Some(code) => {
                    if code == LASTFM_NOT_FOUND {
                        return Ok(Vec::new());
                    }
                },
                None => {},
            }
            Err(TopTagsError { error, message })
        },
    }
}

} // verus!
