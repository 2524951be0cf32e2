# dash

A personal Spotify rating dashboard. Ratings are kept as Spotify playlists
named by a rating (`"4.25"`); the dashboard fetches them, merges rating
histories, shows charts, and can queue tracks weighted by rating.

`src/` is the verified library (Verus):

- `limiter` — per-endpoint account pools: round-robin leasing, cooldowns
  after "too many requests", wake-up instants.
- `history` — merging ratings given within five minutes of each other,
  running counts of ratings and rated tracks.
- `retry` — when and how long to wait before retrying a request, and page
  offsets.
- `cache` — what a cache lookup does (serve, refresh in the background,
  fetch, wait) and where cache files live.
- `sync` — which rating playlist is fetched in full, and which are skipped.
- `genres` — a track's genres from its artists' genres and last.fm tags.
- `playback` — playback selections, eligible tracks, queue bookkeeping,
  playlist ids from context URIs, saved-track bookkeeping.
- `release` — album release dates as Unix timestamps.
- `auth` — cookie parsing, sessions and their expiry, password checks.
- `slider` — the rating slider's response to pointer events.
- `palette` — chart line colours.
- `text` — character-level helpers and integer parsing.

`app/` is the server around it: Spotify and last.fm requests, disk caches,
async waiting, floating-point statistics and charts.
