//! The rating slider: how pointer events change what it previews and when
//! a rating is submitted. Ratings are carried along unchanged.
use vstd::prelude::*;

verus! {

/// What the slider shows: whether the pointer hovers over it, whether a
/// press is in progress, and the rating under the pointer, if previewed.
#[derive(Debug, Clone, Copy)]
pub struct SliderState<R> {
    pub hovering: bool,
    pub interacting: bool,
    pub preview: Option<R>,
}

/// A pointer event on the slider; those with a position carry the rating
/// under the pointer.
#[derive(Debug, Clone, Copy)]
pub enum PointerEvent<R> {
    Enter(R),
    Down(R),
    Move(R),
    Up(R),
    Leave,
    Cancel,
}

/// The slider after `event`, and the rating it submits, if any. On a
/// phone (`mobile`) pointer events only move the preview, and the submit
/// button sends it; on a desktop releasing the pointer submits.
pub open spec fn slider_next<R>(state: SliderState<R>, event: PointerEvent<R>, mobile: bool) -> (
    SliderState<R>,
    Option<R>,
) {
    match event {
        PointerEvent::Enter(r) => (SliderState { hovering: true, preview: Some(r), ..state }, None),
        PointerEvent::Down(r) => (SliderState { interacting: true, preview: Some(r), ..state }, None),
        PointerEvent::Move(r) => if !state.hovering && !state.interacting {
            (state, None)
        } else {
            (SliderState { preview: Some(r), ..state }, None)
        },
        PointerEvent::Up(r) => if mobile {
            (SliderState { interacting: false, preview: Some(r), ..state }, None)
        } else {
            (
                SliderState {
                    interacting: false,
                    preview: if state.hovering {
                        Some(r)
                    } else {
                        None
                    },
                    ..state
                },
                Some(r),
            )
        },
        PointerEvent::Leave => if !mobile && !state.interacting {
            (SliderState { hovering: false, preview: None, ..state }, None)
        } else {
            (SliderState { hovering: false, ..state }, None)
        },
        PointerEvent::Cancel => if mobile {
            (SliderState { interacting: false, ..state }, None)
        } else {
            (SliderState { hovering: false, interacting: false, preview: None }, state.preview)
        },
    }
}

/// The slider before any event.
pub fn slider_start<R>() -> (state: SliderState<R>)
    ensures
        !state.hovering && !state.interacting && state.preview is None,
{
    SliderState { hovering: false, interacting: false, preview: None }
}

/// Applies a pointer event; see `slider_next`.
pub fn slider_step<R: Copy>(state: SliderState<R>, event: PointerEvent<R>, mobile: bool) -> (r: (
    SliderState<R>,
    Option<R>,
))
    ensures
        r == slider_next(state, event, mobile),
{
    match event {
        PointerEvent::Enter(r) => (SliderState { hovering: true, preview: Some(r), ..state }, None),
        PointerEvent::Down(r) => (SliderState { interacting: true, preview: Some(r), ..state }, None),
        PointerEvent::Move(r) => {
            if !state.hovering && !state.interacting {
                (state, None)
            } else {
                (SliderState { preview: Some(r), ..state }, None)
            }
        },
        PointerEvent::Up(r) => {
            if mobile {
                (SliderState { interacting: false, preview: Some(r), ..state }, None)
            } else {
                let preview = if state.hovering {
                    Some(r)
                } else {
                    None
                };
                (SliderState { interacting: false, preview, ..state }, Some(r))
            }
        },
        PointerEvent::Leave => {
            if !mobile && !state.interacting {
                (SliderState { hovering: false, preview: None, ..state }, None)
            } else {
                (SliderState { hovering: false, ..state }, None)
            }
        },
        PointerEvent::Cancel => {
            if mobile {
                (SliderState { interacting: false, ..state }, None)
            } else {
                (SliderState { hovering: false, interacting: false, preview: None }, state.preview)
            }
        },
    }
}

/// The rating the slider shows: the previewed one, else the current one.
pub fn displayed_rating<R: Copy>(state: &SliderState<R>, current: Option<R>) -> (shown: Option<R>)
    ensures
        shown == match state.preview {
            Some(p) => Some(p),
            None => current,
        },
{
    match state.preview {
        Some(p) => Some(p),
        None => current,
    }
}

/// The rating the submit button sends: the shown one, else `fallback`.
pub fn button_rating<R: Copy>(state: &SliderState<R>, current: Option<R>, fallback: R) -> (sent: R)
    ensures
        sent == match state.preview {
            Some(p) => p,
            None => match current {
                Some(c) => c,
                None => fallback,
            },
        },
{
    match displayed_rating(state, current) {
        Some(r) => r,
        None => fallback,
    }
}

/// On a phone, pointer events never submit; on a desktop, releasing the
/// pointer submits the rating under it, and cancelling submits the preview
/// and resets the slider.
pub proof fn slider_submission_laws<R>(state: SliderState<R>, event: PointerEvent<R>)
    ensures
        slider_next(state, event, true).1 is None,
        event matches PointerEvent::Up(r) ==> slider_next(state, event, false).1 == Some(r),
        event is Cancel ==> ({
            let (next, sent) = slider_next(state, event, false);
            &&& sent == state.preview
            &&& !next.hovering && !next.interacting && next.preview is None
        }),
        !(event is Up || event is Cancel) ==> slider_next(state, event, false).1 is None,
{
}

/// Leaving the slider ends hovering and submits nothing. It clears the
/// preview only on a desktop and when no press is in progress: on a phone
/// (where the browser reports a leave after every touch) and during a press
/// the previewed rating stays, so the submit button still sends it.
pub proof fn leaving_keeps_the_preview_on_a_phone<R>(state: SliderState<R>, mobile: bool)
    ensures
        !slider_next(state, PointerEvent::Leave, mobile).0.hovering,
        slider_next(state, PointerEvent::Leave, mobile).0.interacting == state.interacting,
        slider_next(state, PointerEvent::Leave, mobile).1 is None,
        (mobile || state.interacting) ==> slider_next(state, PointerEvent::Leave, mobile).0.preview
            == state.preview,
        (!mobile && !state.interacting) ==> slider_next(state, PointerEvent::Leave, mobile).0.preview is None,
        mobile ==> slider_next(state, PointerEvent::Cancel, mobile).0.preview == state.preview,
{
}

/// Only a press starts an interaction, and every release ends it.
pub proof fn slider_interaction_laws<R>(state: SliderState<R>, event: PointerEvent<R>, mobile: bool)
    ensures
        slider_next(state, event, mobile).0.interacting && !state.interacting ==> event is Down,
        event is Up ==> !slider_next(state, event, mobile).0.interacting,
{
}

/// The value tagged with a track id, as ids and values.
pub open spec fn tagged_view<V>(tagged: Option<(String, V)>) -> Option<(Seq<char>, V)> {
    match tagged {
        Some((id, v)) => Some((id@, v)),
        None => None,
    }
}

/// The value recorded for the track on screen: the tagged value when it
/// was recorded for that track.
pub open spec fn tagged_for<V>(tagged: Option<(Seq<char>, V)>, current: Option<Seq<char>>) -> Option<V> {
    match (tagged, current) {
        (Some((id, v)), Some(c)) => if id == c {
            Some(v)
        } else {
            None
        },
        _ => None,
    }
}

/// The value recorded for the track on screen (`current`, its id), such as a
/// rating waiting to be submitted or the outcome of the last submission;
/// none when it was recorded for another track or no track is on screen.
pub fn for_current_track<V: Copy>(tagged: &Option<(String, V)>, current: &Option<String>) -> (r: Option<V>)
    ensures
        r == tagged_for(tagged_view(*tagged), match current {
            Some(c) => Some(c@),
            None => None,
        }),
{
    match (tagged, current) {
        (Some((id, v)), Some(c)) => if *id == *c {
            Some(*v)
        } else {
            None
        },
        _ => None,
    }
}

/// The rating the player shows for the track on screen: the one the user
/// picked and has not yet seen stored, if it was picked for this track;
/// otherwise the stored one.
pub fn player_rating<V: Copy>(pending: &Option<(String, V)>, current: &Option<String>, stored: Option<V>) -> (r: Option<V>)
    ensures
        r == match tagged_for(tagged_view(*pending), match current {
            Some(c) => Some(c@),
            None => None,
        }) {
            Some(v) => Some(v),
            None => stored,
        },
{
    match for_current_track(pending, current) {
        Some(v) => Some(v),
        None => stored,
    }
}

/// How the last submission of a rating went.
#[derive(Debug, Clone, Copy, PartialEq, Eq, Structural)]
pub enum SubmitStatus {
    Success,
    Error,
}

/// The player after submitting a rating for `track`: with the stored
/// rating (`outcome`, when the submission succeeded) the pending rating is
/// that rating for `track`, and the status of `track` says how it went.
pub fn after_submit<V: Copy>(track: String, outcome: Option<V>) -> (r: (Option<(String, V)>, (String, SubmitStatus)))
    ensures
        r.1.0@ == track@,
        match outcome {
            Some(c) => r.0 matches Some((id, v)) && id@ == track@ && v == c && r.1.1 == SubmitStatus::Success,
            None => r.0 is None && r.1.1 == SubmitStatus::Error,
        },
{
    match outcome {
        Some(c) => (Some((track.clone(), c)), (track, SubmitStatus::Success)),
        None => (None, (track, SubmitStatus::Error)),
    }
}

} // verus!
