# quickfind

Search files instantly: an index of paths, a query language, ranked results and an interactive
search on the terminal.

## Layout

- `src/` is the library. Its functions carry contracts that Verus proves. What is believed instead
  are the contracts of a few outside functions: `glob::Pattern::new` and `glob::Pattern::matches`
  in `patterns`, `home::home_dir` in `config`, `str::to_lowercase` and `String::push` in `text`.
  - `text`, `bytes`, `numbers`, `paths`: text by characters and by bytes, decimal numbers, paths.
  - `patterns`: shell patterns, compiled and matched by the `glob` crate.
  - `query`, `db`, `ranking`: what a query asks for, the statement that fetches candidates, and
    the results in order.
  - `config`, `onboarding`: the configuration, its defaults, and how it is set up by asking.
  - `watcher`, `indexing`: what changes in the file system do to the index.
  - `tui`: the search line, highlighting, what each key does, and what is on the screen.
  - `laws`: what holds of all of this together.
- `tests/` runs the library.
- `app/` is the program around it: arguments, files, the database, the terminal.

## Queries

- `term` must stand in the path, `!term` must not.
- `.rs` and `ext:rs` ask for an ending; several endings are alternatives.
- `/src` asks for a part of the path, `*` stands for any text and `?` for one character.
