# miniclap

A small command line parser with verified behaviour. An application is declared
with a builder (`App::new`, `.arg`, `.subcommand`, ...), an argument vector is
parsed into `Matches`, and the help screen is rendered as text.

## Layout

- `src/` — the library, verified with Verus:
  - `arg.rs`, `app.rs` — declarations and their builders;
  - `matches.rs` — the parse result and its mathematical model (`MatchesModel`);
  - `parse.rs` — the parser, specified by `scan`, `cluster` and `parse_spec`;
  - `help.rs` — the help screen, specified by `help_spec`;
  - `ansi.rs`, `text.rs` — styling and text helpers;
  - `laws.rs` — properties of parsing over all inputs.
- `app/` — reading the process arguments, printing help and exiting.
- `tests/` — tests of the library.

## Help

`-h` or `--help` among the tokens of a level (the tokens before the one that
selects a subcommand) asks for the help of that level; after a subcommand's
name it asks for that subcommand's help, with the parent names in its usage line.
