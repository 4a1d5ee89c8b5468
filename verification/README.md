# moadim_ui

The browser dashboard of the moadim scheduler: routines (scheduled agent runs), cron
jobs, the fleet overview, run reliability, logs and the command palette.

The decisions the dashboard makes are a Verus library under `src/`, each function with a
contract that Verus proves:

- `text`, `order` — the string and sorting toolkit the rest stands on: trimming, lines,
  case folding, splitting and joining, and a verified stable sort over total orders.
- `schedule`, `day_timeline` — cron expressions (normalized, parsed and described by
  `croner`), next fires, "N ago" labels, and a schedule's fire times on one local day.
- `cron_jobs`, `routines` — the two tabs: records, faceted filters, sorting, grouping
  into sections, the page reducers (state machines), and the form codecs.
- `overview`, `reliability`, `health`, `refresh` — KPIs, needs-attention triage,
  upcoming runs, per-routine reliability samples, and the refresh cadence.
- `logs`, `log_viewer`, `palette` — log filtering and highlighting, fuzzy matching and
  ranking for the command palette.
- `shell` — the dashboard-wide keyboard shortcuts.

Public `lemma_*` proof functions state the laws the library keeps across calls, such as
token round trips, what the reducers keep, that grouping partitions the rows, and that
what an edit form shows reads back unchanged.

`app/` is the Yew front end around the library: components, HTTP calls, browser
storage and timers. `tests/` runs the library on concrete values.
