# lazy_svn

The state and rules of lazySVN, a terminal front end for Subversion, as a library
whose behaviour is stated in `requires` / `ensures` contracts and proved with Verus.

## Layout

- `src/text.rs` – text helpers on character sequences (lines, trimming, splitting,
  UTF-8 byte offsets, decimal numbers), each against a spec function.
- `src/glob.rs` – the ignore-pattern matcher (`*`, `**`, basename and suffix rules).
- `src/types.rs` – the data: changed files, log entries, tree rows, list cursors,
  styled diff lines and the path set used for marks and folded directories.
- `src/tree.rs`, `src/tree_props.rs` – the file tree shown in the Files panel and
  what holds of it (ordering, folding, which files get rows).
- `src/app.rs`, `src/commit.rs`, `src/diff.rs` – the window state and its
  operations: cursors, folding, marking, the commit message editor, diff scrolling.
- `src/svn.rs`, `src/workflow.rs` – reading `svn` output into the state and planning
  the `svn` commands and file contents that the operations need.
- `src/view.rs`, `src/keys.rs` – the texts the window shows and what a key does.
- `src/laws.rs` – properties that relate several operations (round trips, what an
  operation undoes, what a saved file reads back as).
- `app/` – the terminal program: runs `svn`, reads and writes the files under the
  home directory, draws with ratatui and reads keys with crossterm.
