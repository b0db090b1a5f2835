# jetti

A library for organizing git repositories into a `<root>/<host>/<owner>/<repo>`
layout, with its behaviour stated in Verus contracts and proved, and the
`jetti` command-line program around it.

## Layout

- `src/` — the verified library:
  - `text` — character-level string operations and the lexicographic order of strings;
  - `config` — protocol, known hosts, default configuration, path joining, configuration file location;
  - `repo` — repository specifier parsing, clone URLs and local paths;
  - `tree` — the tree layout of a repository listing;
  - `list` — the directory walk's decisions and the sorted, filtered listing;
  - `output` — reading git's output (trimming, line counts, numbers) and writing numbers;
  - `batch` — outcomes of fetch, update and status, the order in which git is consulted, the summary;
  - `plan` — decisions of the clone, remove and config commands;
  - `error` — the error type and its messages.
- `app/` — the program: command-line parsing, reading the configuration file,
  the file system, terminal output and running git.
- `tests/` — tests of the library.
