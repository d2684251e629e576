# site_tui

The verified core of a terminal (SSH) front page for a personal website.

- `src/model.rs` — the site content (quotes, jobs, projects, socials,
  adjectives) and its assembly from the fetched or bundled documents.
- `src/store.rs` — the data store's state machine: the current snapshot, the
  rate-limited refresh decision (at most one pull in flight, at most one
  attempt per refresh interval), installing a pull's result, and the data
  file addresses.
- `src/home.rs` — the home screen section: a shuffled order over the quotes,
  navigation with wrap-around, resynchronisation after a refresh, and the
  quoted, wrapped quote text.
- `src/wrap.rs` — greedy word wrapping (over-long words cut at the width),
  with its laws (width, no word or character lost,
  line shape, greediness).
- `src/layout.rs` — the progress bar's runs of cells, the tagline pieces and
  line padding.
- `app/` — the unverified shell: the process-wide store behind a lock, the
  clock, HTTP pulls and JSON parsing, and drawing with ratatui.
