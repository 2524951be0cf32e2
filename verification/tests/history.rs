use dash::history::{
    count_history, dedupe_rating_history, first_rating_time, rated_within_window,
    rating_count_histories, sort_by_time, RATING_OVERWRITE_WINDOW,
};
use time::{Date, Month, Time, UtcDateTime};

fn date_time(minute: u8) -> i128 {
    UtcDateTime::new(
        Date::from_calendar_date(2024, Month::January, 1).unwrap(),
        Time::from_hms(0, minute, 0).unwrap(),
    )
    .unix_timestamp_nanos()
}

const MINUTE: i128 = 60_000_000_000;

#[test]
fn ratings_within_five_minutes_overwrite_the_previous_rating() {
    let mut history = vec![
        (date_time(0), 2.0_f32),
        (date_time(4), 4.0),
        (date_time(10), 3.0),
    ];

    dedupe_rating_history(&mut history);

    assert_eq!(history, vec![(date_time(4), 4.0), (date_time(10), 3.0)]);
}

#[test]
fn ratings_more_than_five_minutes_apart_are_kept() {
    let mut history = vec![(date_time(0), 2.0_f32), (date_time(6), 4.0)];

    dedupe_rating_history(&mut history);

    assert_eq!(history, vec![(date_time(0), 2.0), (date_time(6), 4.0)]);
}

#[test]
fn overwrite_window_is_chained_from_the_latest_rating() {
    let mut history = vec![
        (date_time(0), 1.0_f32),
        (date_time(4), 2.0),
        (date_time(8), 3.0),
        (date_time(14), 4.0),
    ];

    dedupe_rating_history(&mut history);

    assert_eq!(history, vec![(date_time(8), 3.0), (date_time(14), 4.0)]);
    assert_eq!(history[1].0 - history[0].0, 6 * MINUTE);
}

#[test]
fn dedupe_sorts_unsorted_history_first() {
    let mut history = vec![(date_time(30), 5u32), (date_time(0), 1), (date_time(3), 2)];
    dedupe_rating_history(&mut history);
    assert_eq!(history, vec![(date_time(3), 2), (date_time(30), 5)]);
}

#[test]
fn rating_exactly_at_the_window_edge_overwrites() {
    let mut history = vec![(0i128, 'a'), (RATING_OVERWRITE_WINDOW, 'b'), (2 * RATING_OVERWRITE_WINDOW + 1, 'c')];
    dedupe_rating_history(&mut history);
    assert_eq!(history, vec![(RATING_OVERWRITE_WINDOW, 'b'), (2 * RATING_OVERWRITE_WINDOW + 1, 'c')]);
}

#[test]
fn dedupe_of_empty_history_is_empty() {
    let mut history: Vec<(i128, u8)> = Vec::new();
    dedupe_rating_history(&mut history);
    assert!(history.is_empty());
}

#[test]
fn dedupe_is_idempotent_on_an_example() {
    let mut history = vec![(date_time(0), 1u8), (date_time(2), 2), (date_time(9), 3), (date_time(20), 4), (date_time(24), 5)];
    dedupe_rating_history(&mut history);
    let once = history.clone();
    dedupe_rating_history(&mut history);
    assert_eq!(history, once);
    assert_eq!(once, vec![(date_time(2), 2), (date_time(9), 3), (date_time(24), 5)]);
}

#[test]
fn dedupe_handles_extreme_instants() {
    let mut history = vec![(i128::MAX, 1u8), (i128::MIN, 2)];
    dedupe_rating_history(&mut history);
    assert_eq!(history, vec![(i128::MIN, 2), (i128::MAX, 1)]);
}

#[test]
fn sort_by_time_is_stable() {
    let v = vec![(5i128, 'x'), (1, 'a'), (5, 'y'), (1, 'b')];
    assert_eq!(sort_by_time(&v), vec![(1, 'a'), (1, 'b'), (5, 'x'), (5, 'y')]);
}

#[test]
fn count_history_numbers_sorted_instants() {
    assert_eq!(count_history(&vec![30, 10, 20, 10]), vec![(10, 0), (10, 1), (20, 2), (30, 3)]);
    assert!(count_history(&Vec::new()).is_empty());
}

#[test]
fn first_rating_time_is_the_earliest() {
    assert_eq!(first_rating_time(&vec![(7i128, 0u8), (3, 0), (9, 0)]), Some(3));
    assert_eq!(first_rating_time::<u8>(&Vec::new()), None);
}

#[test]
fn rating_count_histories_count_ratings_and_rated_tracks() {
    let histories = vec![
        vec![(5i128, 1u8), (1, 2)],
        vec![],
        vec![(3, 3)],
    ];
    let (ratings, tracks) = rating_count_histories(&histories);
    assert_eq!(ratings, vec![(1, 0), (3, 1), (5, 2)]);
    assert_eq!(tracks, vec![(1, 0), (3, 1)]);
}

#[test]
fn recently_rated_uses_the_latest_rating() {
    let history = vec![(0i128, 1u8), (10 * MINUTE, 2)];
    assert!(rated_within_window(&history, 15 * MINUTE));
    assert!(!rated_within_window(&history, 15 * MINUTE + 1));
    assert!(!rated_within_window::<u8>(&Vec::new(), 0));
}
