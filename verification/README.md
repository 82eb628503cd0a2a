# codex_history

Tools for the history of a Codex home, with their logic proved by Verus:

- merging the history of one Codex home into another (`history.jsonl`,
  `session_index.jsonl`, the session files under `sessions/`), refusing when a
  session file of the target differs;
- moving the threads of a Codex home to another model provider (the counts and the
  `UPDATE` for the state database run by `sqlite3`, the session logs that record the
  provider, and the backups taken first);
- telling whether Codex still runs, leaving out helper processes.

Layout:

- `src/` is the verified library. `text` (lines, white space, numbers), `paths`
  (paths held by their components), `sql` (quoting, statements, the rows that come
  back), `jsonl` (merging logs line by line), `session_log` (the provider a session
  log records, through `serde_json`), `sessions` (the plan for session files),
  `history` (the migration), `rewrite` (the provider rewrite, its backups stamped
  through `chrono`) and `running`.
- `app/` is the command line around it: it reads and writes the files, runs
  `sqlite3` and `ps`, and hands the library what it found.
- `tests/` runs the library on concrete values.
