# clignote

A terminal editor for org-mode files (`cln`), with its text handling
proved correct by Verus.

- `src/` is the verified library:
  - `lexer`, `inline`, `parser`, `serializer`, `document`: the org-mode
    format: line tokens, inline markup, the document tree, and the text it
    is written back as; `roundtrip` proves that parsing canonical text and
    writing it back gives the same text.
  - `pane`: a buffer of lines with a cursor, and every edit on it.
  - `keymap`, `session`, `editor`: what keys and `:` commands mean, the
    window layout tree, focus moves, clicks and search.
  - `git`: the per-line status of a buffer against the committed file.
  - `highlight`, `display`: syntax styles, folded links and the overlays
    of each screen cell.
  - `listing`: which directory entries the browser and the file-name
    completion show, and in what order.
  - `text`: character classes and string helpers.
- `app/` is the program around it: the terminal (crossterm, ratatui), the
  command line (clap), files on disk and `git show`.
- `tests/` runs the library on concrete inputs.
