use dash::palette::rgb_from_hash;
use dash::slider::{after_submit, SubmitStatus, for_current_track, player_rating, button_rating, displayed_rating, slider_start, slider_step, PointerEvent, SliderState};

#[test]
fn desktop_release_submits_the_rating_under_the_pointer() {
    let s: SliderState<f64> = slider_start();
    let (s, sent) = slider_step(s, PointerEvent::Enter(1.0), false);
    assert_eq!(sent, None);
    let (s, _) = slider_step(s, PointerEvent::Down(2.0), false);
    let (s, _) = slider_step(s, PointerEvent::Move(3.5), false);
    assert_eq!(displayed_rating(&s, Some(4.0)), Some(3.5));
    let (s, sent) = slider_step(s, PointerEvent::Up(3.75), false);
    assert_eq!(sent, Some(3.75));
    assert!(!s.interacting);
    assert_eq!(s.preview, Some(3.75));
    let (s, _) = slider_step(s, PointerEvent::Leave, false);
    assert_eq!(s.preview, None);
    assert_eq!(displayed_rating(&s, Some(4.0)), Some(4.0));
}

#[test]
fn moving_without_hover_or_press_changes_nothing() {
    let s: SliderState<f64> = slider_start();
    let (s, sent) = slider_step(s, PointerEvent::Move(2.0), false);
    assert_eq!(sent, None);
    assert_eq!(s.preview, None);
}

#[test]
fn phones_submit_with_the_button_only() {
    let s: SliderState<f64> = slider_start();
    let (s, _) = slider_step(s, PointerEvent::Down(1.5), true);
    let (s, sent) = slider_step(s, PointerEvent::Up(2.5), true);
    assert_eq!(sent, None);
    assert_eq!(button_rating(&s, Some(4.0), 0.0), 2.5);
    let (s, sent) = slider_step(s, PointerEvent::Cancel, true);
    assert_eq!(sent, None);
    assert_eq!(s.preview, Some(2.5));
    let fresh: SliderState<f64> = slider_start();
    assert_eq!(button_rating(&fresh, None, 0.0), 0.0);
    assert_eq!(button_rating(&fresh, Some(3.0), 0.0), 3.0);
}

#[test]
fn desktop_cancel_submits_the_preview_and_resets() {
    let s: SliderState<f64> = slider_start();
    let (s, _) = slider_step(s, PointerEvent::Enter(4.0), false);
    let (s, sent) = slider_step(s, PointerEvent::Cancel, false);
    assert_eq!(sent, Some(4.0));
    assert!(!s.hovering && !s.interacting && s.preview.is_none());
}

#[test]
fn colours_come_from_the_low_bytes() {
    assert_eq!(rgb_from_hash(0x1234_5678_9abc_def0), [0xf0, 0xde, 0xbc]);
    assert_eq!(rgb_from_hash(0), [0, 0, 0]);
}

#[test]
fn the_player_shows_the_pending_rating_of_the_track_on_screen() {
    let on_screen = Some("4uLU6hMCjMI75M1A2tKUQC".to_string());
    let pending = Some(("4uLU6hMCjMI75M1A2tKUQC".to_string(), 4.5f32));
    let stale = Some(("1301WleyT98MSxVHPZCA6M".to_string(), 1.0f32));
    assert_eq!(player_rating(&pending, &on_screen, Some(3.0)), Some(4.5));
    assert_eq!(player_rating(&stale, &on_screen, Some(3.0)), Some(3.0));
    assert_eq!(player_rating(&stale, &on_screen, None), None);
    assert_eq!(player_rating(&pending, &None, Some(3.0)), Some(3.0));
    assert_eq!(player_rating::<f32>(&None, &on_screen, None), None);
    assert_eq!(for_current_track(&Some(("a".to_string(), true)), &Some("a".to_string())), Some(true));
    assert_eq!(for_current_track(&Some(("a".to_string(), true)), &Some("b".to_string())), None);
}

#[test]
fn submitting_a_rating_records_it_for_the_track() {
    let (pending, status) = after_submit("4uLU6hMCjMI75M1A2tKUQC".to_string(), Some(4.25f32));
    assert_eq!(pending, Some(("4uLU6hMCjMI75M1A2tKUQC".to_string(), 4.25)));
    assert_eq!(status, ("4uLU6hMCjMI75M1A2tKUQC".to_string(), SubmitStatus::Success));
    let (pending, status) = after_submit::<f32>("1301WleyT98MSxVHPZCA6M".to_string(), None);
    assert_eq!(pending, None);
    assert_eq!(status, ("1301WleyT98MSxVHPZCA6M".to_string(), SubmitStatus::Error));
}
