# stinkpot

An SQLite-backed shell-history searcher, with its logic verified in Verus.

- `src/` is the library. Verus proves the contract of every function in it, apart from those
  taken on trust below.
  - `text`, `number`: trimming, joining and padding of text; decimal numbers, written and read.
  - `calendar`, `time`: the Gregorian calendar, UTC timestamps, ages such as `3m` or `2d`.
  - `matching`, `ranking`, `search`: which commands match a query, in which order they are listed,
    and which one is selected.
  - `keys`, `tui`, `frame`: what a key asks, what it does to the search, and what the search shows.
  - `command`, `database`, `error`: what is recorded, listed and imported, and where the history
    lies.
  - `history`: what recording and importing make of the history as a whole. The database carries
    the statements out; the laws are about what they ask for.
- `app/` is the program around it: arguments, environment, files, the database and the terminal.
- `tests/` runs the library.

What is taken on trust, with the contract stated beside it: the score that the crate fuzzy-matcher
gives a command (`matching`), appending a character to a string (`text`), and reading
the system clock (`time`).

```bash
eval "$(stinkpot init bash)"
stinkpot import
```

Hit `ctrl+r` to search, tab or enter to accept the selection, escape to cancel.
