# dux

A verified library for two jobs of a terminal workspace manager:

- `src/terminal_links.rs` finds `http://` and `https://` links in a terminal
  snapshot (rows joined where the terminal soft-wrapped them, trailing
  punctuation and unmatched closing brackets dropped) and hit-tests grid
  positions and cells against them.
- `src/opencode.rs` picks the OpenCode session that belongs to a worktree:
  the newest one across each data root's SQLite database and JSON session
  files, leaving out sessions already known.
- `src/session_files.rs` reads the session id and directory out of a JSON
  session file and recognises session file names.
- `src/unicode.rs` holds the character properties the link finder relies on
  (display widths from `unicode_width`, White_Space from std).

Each public function states its result exactly in its `ensures`; the laws of
the library are the `pub proof fn lemma_*` items next to the functions they
speak of.

`app/` reads the disk (data roots, the SQLite database through `rusqlite`,
the session files, canonical paths and modification times) and hands plain
values to the library.
