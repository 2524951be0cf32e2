use dash::playback::{
    fewest_tracks, track_source, weighted_playback_switch, SwitchHint, SwitchView, ContextKind, TrackSource,
    count_in_queue, eligible_tracks, insert_saved_track, may_queue_another, playlist_id_from_context_uri, queued_marker,
    ContextUriError, PlaybackSelection, Song,
};

fn song(name: &str, artists: &[&str]) -> Song {
    Song { name: name.to_string(), artists: artists.iter().map(|a| a.to_string()).collect() }
}

#[test]
fn selection_values_round_trip() {
    for sel in [PlaybackSelection::Everything, PlaybackSelection::RatedOnly, PlaybackSelection::UnratedOnly] {
        assert_eq!(PlaybackSelection::from_value(sel.value()), Some(sel));
    }
    assert_eq!(PlaybackSelection::Everything.value(), "everything");
    assert_eq!(PlaybackSelection::RatedOnly.value(), "rated-only");
    assert_eq!(PlaybackSelection::UnratedOnly.value(), "unrated-only");
    assert_eq!(PlaybackSelection::from_value("Everything"), None);
    assert_eq!(PlaybackSelection::from_value(""), None);
    assert_eq!(PlaybackSelection::default(), PlaybackSelection::Everything);
}

#[test]
fn selection_labels() {
    assert_eq!(PlaybackSelection::Everything.label(), "Everything");
    assert_eq!(PlaybackSelection::RatedOnly.label(), "Rated Only");
    assert_eq!(PlaybackSelection::UnratedOnly.label(), "Unrated Only");
}

#[test]
fn selection_filters_rated_and_unrated_tracks() {
    // (is rated, reaches the cutoff)
    let tracks = vec![(true, true), (false, true), (true, false), (false, false)];
    assert_eq!(eligible_tracks(&tracks, PlaybackSelection::Everything), vec![0, 1]);
    assert_eq!(eligible_tracks(&tracks, PlaybackSelection::RatedOnly), vec![0]);
    assert_eq!(eligible_tracks(&tracks, PlaybackSelection::UnratedOnly), vec![1]);
    assert!(eligible_tracks(&vec![(false, true)], PlaybackSelection::RatedOnly).is_empty());
    assert!(PlaybackSelection::RatedOnly.admits(true));
    assert!(!PlaybackSelection::UnratedOnly.admits(true));
}

#[test]
fn queue_counting_matches_name_and_artists() {
    let a = song("Rated Song", &["Artist A"]);
    let queue = vec![
        song("Rated Song", &["Artist A"]),
        song("Rated Song", &["Artist B"]),
        song("Unrated Song", &["Artist A"]),
        song("Rated Song", &["Artist A"]),
        song("Rated Song", &["Artist A", "Artist B"]),
    ];
    assert_eq!(count_in_queue(&queue, &a), 2);
    assert!(a.same_as(&song("Rated Song", &["Artist A"])));
    assert!(!a.same_as(&song("Rated Song", &[])));
}

#[test]
fn next_song_is_queued_only_once_the_last_one_left_the_queue() {
    let a = song("Rated Song", &["Artist A"]);
    let queue_before = vec![song("Other", &["X"])];
    assert!(may_queue_another(&None, &queue_before));
    let marker = queued_marker(&a, &queue_before);
    assert_eq!(marker.1, 1);
    let last = Some(marker);
    let queue_now = vec![song("Rated Song", &["Artist A"]), song("Other", &["X"])];
    assert!(!may_queue_another(&last, &queue_now));
    assert!(may_queue_another(&last, &queue_before));
}

#[test]
fn playlist_ids_come_from_playlist_context_uris() {
    assert_eq!(
        playlist_id_from_context_uri("spotify:playlist:37i9dQZF1DXcBWIGoYBM5M").unwrap(),
        "37i9dQZF1DXcBWIGoYBM5M"
    );
    assert_eq!(playlist_id_from_context_uri("spotify:album:4aawyAB9vmqN3uQ7FjRGTy").err(), Some(ContextUriError::NotAPlaylist));
    assert_eq!(playlist_id_from_context_uri("spotify:playlist:abc-def").err(), Some(ContextUriError::InvalidId));
    assert_eq!(playlist_id_from_context_uri("spotify:playlist:").unwrap(), "");
    assert_eq!(playlist_id_from_context_uri("spotify").err(), Some(ContextUriError::NotAPlaylist));
}

#[test]
fn saved_tracks_stop_at_the_first_known_song() {
    let mut saved = Vec::new();
    assert!(!insert_saved_track(&mut saved, song("A", &["X"]), "id1".to_string()));
    assert!(!insert_saved_track(&mut saved, song("B", &["Y"]), "id2".to_string()));
    assert!(insert_saved_track(&mut saved, song("A", &["X"]), "id3".to_string()));
    assert_eq!(saved.len(), 2);
    assert_eq!(saved[0].1, "id3");
    assert_eq!(saved[1].1, "id2");
}

/// The rating an unrated track is weighed with.
const DEFAULT_RATING: f32 = 2.5;

/// A track as the playback filter sees it: whether it is rated, and whether
/// its rating (the default one when unrated) reaches the cutoff.
fn filter_input(rating: Option<f32>, cutoff: f32) -> (bool, bool) {
    let value = rating.unwrap_or(DEFAULT_RATING);
    (rating.is_some(), !(value < cutoff))
}

#[test]
fn choose_random_song_filters_to_rated_tracks() {
    // "Rated Song" is rated 4.0, "Unrated Song" has no rating.
    let tracks = vec![filter_input(Some(4.0), 0.0), filter_input(None, 0.0)];
    assert_eq!(eligible_tracks(&tracks, PlaybackSelection::RatedOnly), vec![0]);
}

#[test]
fn choose_random_song_returns_none_when_filter_excludes_everything() {
    let tracks = vec![filter_input(None, 0.0)];
    assert_eq!(eligible_tracks(&tracks, PlaybackSelection::RatedOnly), Vec::<usize>::new());
}

#[test]
fn choose_random_song_filters_to_unrated_tracks() {
    let tracks = vec![filter_input(Some(4.0), 0.0), filter_input(None, 0.0)];
    assert_eq!(eligible_tracks(&tracks, PlaybackSelection::UnratedOnly), vec![1]);
}

#[test]
fn choose_random_song_applies_cutoff_to_default_rating_for_unrated_tracks() {
    let tracks = vec![filter_input(None, DEFAULT_RATING + 0.1)];
    assert_eq!(eligible_tracks(&tracks, PlaybackSelection::Everything), Vec::<usize>::new());
}

#[test]
fn context_kinds_choose_where_tracks_come_from() {
    assert_eq!(
        track_source(ContextKind::Playlist, "spotify:playlist:37i9dQZF1DXcBWIGoYBM5M"),
        TrackSource::Playlist("37i9dQZF1DXcBWIGoYBM5M".to_string())
    );
    assert_eq!(
        track_source(ContextKind::Playlist, "spotify:album:4aawyAB9vmqN3uQ7FjRGTy"),
        TrackSource::Unusable(ContextUriError::NotAPlaylist)
    );
    assert_eq!(
        track_source(ContextKind::Playlist, "spotify:playlist:abc-def"),
        TrackSource::Unusable(ContextUriError::InvalidId)
    );
    assert_eq!(track_source(ContextKind::Collection, "spotify:user:me:collection"), TrackSource::SavedTracks);
    assert_eq!(track_source(ContextKind::Other, "spotify:playlist:abc"), TrackSource::Nowhere);
}

#[test]
fn the_playlist_with_the_fewest_tracks_is_filled() {
    assert_eq!(fewest_tracks(&vec![]), None);
    assert_eq!(fewest_tracks(&vec![40, 12, 30]), Some(1));
    assert_eq!(fewest_tracks(&vec![7, 9, 7]), Some(0));
    assert_eq!(fewest_tracks(&vec![3]), Some(0));
}

#[test]
fn weighted_playback_switch_follows_the_playlist_and_saving() {
    assert_eq!(
        weighted_playback_switch(true, true, true, false),
        SwitchView { checked: true, disabled: false, hint: SwitchHint::Explain }
    );
    assert_eq!(
        weighted_playback_switch(true, true, true, true),
        SwitchView { checked: true, disabled: true, hint: SwitchHint::Saving }
    );
    assert_eq!(
        weighted_playback_switch(false, true, true, false),
        SwitchView { checked: false, disabled: false, hint: SwitchHint::Explain }
    );
    assert_eq!(
        weighted_playback_switch(true, false, true, true),
        SwitchView { checked: false, disabled: true, hint: SwitchHint::NoPlaylist }
    );
}
