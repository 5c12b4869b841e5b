# swaykeys

A help sheet for every active sway key binding: the config read the way sway
reads it (includes, `set` variables, mode blocks, the five binding lists per
mode), then shown as an aligned sheet, markdown, JSON or an interactive pager.

## Layout

- `src/` — the library, verified with Verus.
  - `text.rs`: strings as character sequences (whitespace, splitting, joining).
  - `lex.rs`: physical lines into logical lines (continuations, comments,
    braces on their own line).
  - `vars.rs`: `set` variables and their expansion.
  - `source.rs`: line shapes, which root config to walk, the walk over a
    config, include paths, the IPC frame.
  - `model.rs`: bindings, the lists they land in, collisions and `unbind`.
  - `xkb.rs`: input settings, keymap tables, which bindings never fire.
  - `group.rs`: sections and rows of the sheet, descriptions.
  - `render.rs`: the aligned sheet (one or more columns) and markdown.
  - `theme.rs`: the colour palette.
  - `tui.rs`: the pager's state and decisions.
  - `cli.rs`: colour, pager and format choices.
- `app/` — the program: arguments, files, the sway socket, libxkbcommon, the
  terminal and JSON output.
- `tests/` — tests of the library.
