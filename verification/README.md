# cargo-storage

Finds the output directories of Cargo projects (`target/`, and those that
`build.target-dir` and `build.build-dir` point to) and measures the disk space
they take, so that stale ones can be removed.

The decisions are a library verified with Verus; the program around it does the
reading, the running of commands and the drawing.

## The library, `src/`

| module | what it holds |
| --- | --- |
| `scan::discover` | which directories a walk enters and records, which linked git worktrees are walked besides, which rows come out |
| `scan::measure` | `du`-like disk usage and the newest modification, each inode counted once |
| `scan::docker` | container volumes: which command to run next, reading what it printed, which volumes can be walked |
| `scan::spotlight` | which hits of the metadata index are projects |
| `scan` | the label of a row; linked worktrees read as `main (tree)` |
| `config`, `limits` | the user configuration from file and environment, and what its parsers can take |
| `args`, `session`, `util` | what an invocation asks for, the interactive session, thread counts |
| `path`, `text`, `order` | paths, text and stable sorting, and what is proved of them |

Functions named `law_*` state what holds of the library as a whole.

Where a decision needs something from outside (whether a file exists, what a
command printed), the function says what to look up and is called again with the
answer.

## The program, `app/`

Argument parsing, file system walks, subprocesses, threads and the terminal.
