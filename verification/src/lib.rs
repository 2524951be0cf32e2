//! Verified core of a personal Spotify rating dashboard.
pub mod auth;
pub mod cache;
pub mod genres;
pub mod history;
pub mod limiter;
pub mod palette;
pub mod playback;
pub mod release;
pub mod retry;
pub mod slider;
pub mod sync;
pub mod text;
