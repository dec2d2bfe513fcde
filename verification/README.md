# wattaouille

A live CPU and energy monitor for Linux laptops: a session leaderboard of
the busiest processes, a live process tree that hides idle middlemen and
folds browser worker farms into one line, Intel RAPL package wattage split
by CPU share, and a battery cross-check.

The decisions live in a library verified with Verus; the program around it
reads `/proc` and `/sys` and prints.

## Layout

- `src/` — the verified library.
  - `text`, `number`: text handling and integer parsing with the semantics
    of `str`'s methods and `str::parse`.
  - `procfs`: what the text of `/proc/[pid]/stat`, `cmdline`, `io`, the
    child lists and `/proc/stat` say.
  - `label`: short human labels for well-known programs and for
    browsers.
  - `power`: RAPL counters (wrap-around), the setup instructions, the
    battery's state and time left.
  - `tree`: sums over subtrees, the processes worth showing, the rows of
    the live tree.
  - `walk`: the step-by-step walk that sums a live process tree.
  - `frame`: one frame of the monitor (deltas, children, session totals,
    browser folding, the leaderboard).
  - `shape`: the test made before a frame's tree is walked (no cycle,
    totals that fit).
  - `options`: the command line.
- `tests/` — tests on concrete values.
- `app/` — the program: reading `/proc` and `/sys`, the main loop, the
  floating-point wattage figures and the terminal output.
