# cc_switcher

A configuration switcher and cost tracker for a command-line coding
assistant, written in Verus.

- `src/` is the verified library:
  - `config/`: what a configuration is, the rules for its name, the store of
    registered configurations (add, look up, set the default, remove) and
    the manager that the commands use; the listing text.
  - `run.rs`: which configuration a run uses (named > pinned > default).
  - `pin.rs`: the pin file and how far up the directory tree it is looked for.
  - `cli.rs`: the commands, and how `ccs <name> [--] <args>` is read.
  - `cost/`: session-log lines to usage records, grouping by day and model,
    price-table lookup (own name, alias, name without trailing date),
    periods, sorting and per-model summaries.
  - `text.rs`: whitespace, trimming, equality and order of strings.
- `app/` is the program around it: command-line parsing, files, the clock,
  processes, JSON, SQLite, floating-point prices and printing.
- `tests/` runs the library on concrete values.
