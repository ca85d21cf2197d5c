# dupekit

Finding and safely cleaning up duplicate files. The library in `src/` holds
the rules, verified with Verus; `app/` is a terminal front end around it that
runs the `fclones` duplicate finder, the file operations and the SQLite scan
history.

## Library modules

- `models`: duplicate groups and their selection. No operation can select
  every copy of a group; selection policies keep the first, newest, oldest
  or preferred-directory copy.
- `cleanup`: planning a cleanup, the preflight that compares each planned
  file with what the file system reports, and the outcome of a run.
- `scanner`: checking a scan configuration, numbering the finder's groups,
  and coalescing progress updates.
- `review`: toggling files, applying a policy to every group, totals, and
  carrying the choices made on shown results over to a refreshed scan by
  path.
- `session`: the screen and run bookkeeping of an interactive session
  (stale reports, cancellation, refresh and cleanup flows).
- `screens`: the refresh-settings form, history rows, scan progress, paging.
- `sizes`: reading sizes typed by a person (`2.5 GB`); `text`: writing sizes,
  labels and times.
- `storage`: the column codec of the scan history; `messages`: error texts.
- `path`, `cancel`: raw-byte paths and the cancellation flag.
