# dupe_finder

Finds duplicate files (by content digest) under a root folder and lets the
user keep whole folders in place; the duplicates in every other folder are
moved to a target folder under their path relative to the root, never
overwriting a file.

## Layout

- `src/` — the library, verified with Verus:
  - `text.rs`, `path.rs`, `order.rs`: characters and strings, a model of
    Unix paths, and a stable merge sort on indices with runs of equal keys.
  - `cli.rs`: the options of a run, byte sizes (`parse_bytes`,
    `human_bytes`).
  - `prefs.rs`: preferences, their defaults and how they merge with the
    command line into a `ScanFilter`.
  - `scan.rs`, `digest.rs`: which files a scan considers, the size
    prefilter, content digests (md5, xxh64, sha256) and the grouping of
    duplicates by folder.
  - `move_files.rs`: destinations that never overwrite, planning and
    executing moves (the file-system operations are passed in).
  - `session.rs`: what the web UI asks: marking folders, the summary,
    preview and move with the "keep at least one folder" guard.
  - `model.rs`: the records shared by the above.
  - `backend.rs`: the duplicate report of the HTTP back end.
- `app/` — the program: command line, preferences file, walking and
  reading files, the axum web servers.
- `tests/` — tests of the library, with in-memory file systems.
