use dash::cache::{cache_action, CacheAction};
use dash::genres::{collect_genres, top_tags_from_reply, ArtistGenres, LastFmTag};
use dash::retry::{page_advance, retry_delay};
use dash::sync::{most_overdue, should_fetch_playlist, NEVER};

#[test]
fn retry_after_header_is_honoured_for_too_many_requests() {
    assert_eq!(retry_delay(Some(429), Some("7"), 0), Some((7, 0)));
    assert_eq!(retry_delay(Some(429), Some("+7"), 3), Some((7, 3)));
    assert_eq!(retry_delay(Some(429), Some("soon"), 2), Some((4, 3)));
    assert_eq!(retry_delay(Some(429), None, 5), Some((32, 6)));
    assert_eq!(retry_delay(Some(429), None, 6), None);
}

#[test]
fn other_status_errors_are_handed_on_at_once() {
    assert_eq!(retry_delay(Some(404), None, 0), None);
    assert_eq!(retry_delay(Some(503), Some("7"), 0), None);
    assert_eq!(retry_delay(Some(500), None, 3), None);
}

#[test]
fn backoff_doubles_and_gives_up() {
    let mut tries = 0;
    let mut waits = Vec::new();
    while let Some((secs, next)) = retry_delay(Some(429), None, tries) {
        waits.push(secs);
        tries = next;
    }
    assert_eq!(waits, vec![1, 2, 4, 8, 16, 32]);
    assert_eq!(retry_delay(None, Some("1"), 0), None);
}

#[test]
fn pagination_stops_at_the_last_or_an_empty_page() {
    assert_eq!(page_advance(0, 50, true), (50, false));
    assert_eq!(page_advance(50, 0, true), (50, true));
    assert_eq!(page_advance(100, 20, false), (120, true));
}

#[test]
fn cache_lookups() {
    let interval = 60;
    assert_eq!(cache_action(Some(100), true, 161, interval), CacheAction::ServeCachedAndRefresh);
    assert_eq!(cache_action(Some(100), true, 160, interval), CacheAction::ServeCached);
    assert_eq!(cache_action(Some(100), false, 1000, interval), CacheAction::ServeCached);
    assert_eq!(cache_action(None, true, 0, interval), CacheAction::FetchNow);
    assert_eq!(cache_action(None, false, 0, interval), CacheAction::AwaitOther);
}

fn artist(name: &str, genres: &[&str]) -> ArtistGenres {
    ArtistGenres { name: name.to_string(), genres: genres.iter().map(|g| g.to_string()).collect() }
}

#[test]
fn genres_are_lowercased_without_track_and_artist_names() {
    let artists = vec![
        artist("Artist A", &["Rock", "Indie Rock", "artist a"]),
        artist("B", &["rock", "Song", "Jazz"]),
    ];
    let mut genres = collect_genres("Song", &artists);
    genres.sort();
    assert_eq!(genres, vec!["indie rock", "jazz", "rock"]);
}

#[test]
fn an_artist_name_is_only_removed_at_that_artist() {
    let artists = vec![artist("Pop", &["Pop"]), artist("X", &["POP"])];
    assert_eq!(collect_genres("t", &artists), vec!["pop"]);
    assert!(collect_genres("t", &Vec::new()).is_empty());
    assert_eq!(collect_genres("t", &vec![artist("Y", &["ÄBC"])]), vec!["äbc"]);
}

#[test]
fn lastfm_replies() {
    let tag = LastFmTag { name: "rock".to_string(), count: 100 };
    let ok = top_tags_from_reply(Some(vec![tag]), None, None).ok().unwrap();
    assert_eq!(ok.len(), 1);
    assert_eq!(ok[0].name, "rock");
    assert_eq!(ok[0].count, 100);
    assert!(top_tags_from_reply(None, Some(6), None).ok().unwrap().is_empty());
    let err = top_tags_from_reply(None, Some(29), Some("Rate limit".to_string())).err().unwrap();
    assert_eq!(err.error, Some(29));
    assert_eq!(err.message.as_deref(), Some("Rate limit"));
    assert!(top_tags_from_reply(None, None, None).is_err());
}

#[test]
fn the_playlist_fetched_longest_ago_is_overdue() {
    assert_eq!(most_overdue(&vec![Some(5), None, Some(3)], 10), Some(1));
    assert_eq!(most_overdue(&vec![Some(5), Some(3), Some(3)], 10), Some(1));
    assert_eq!(most_overdue(&vec![Some(20), Some(30)], 10), None);
    assert_eq!(most_overdue(&vec![Some(NEVER), None], 10), Some(0));
    assert_eq!(most_overdue(&Vec::new(), 10), None);
}

#[test]
fn playlists_are_refetched_when_overdue_or_changed() {
    let s = "snap1".to_string();
    let t = "snap2".to_string();
    assert!(should_fetch_playlist(true, Some(&s), &s));
    assert!(!should_fetch_playlist(false, Some(&s), &s));
    assert!(should_fetch_playlist(false, Some(&t), &s));
    assert!(should_fetch_playlist(false, None, &s));
}
