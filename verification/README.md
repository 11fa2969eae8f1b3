# Sisko

A desktop workbench for Nushell. `src/` is the logic, written and proved in Verus; `app/` is
the window around it.

The library

- `text`: characters, lines, pieces, numbers in decimal, the order of texts
- `ansi`, `color`: escape sequences as styled spans, terminal palettes
- `value`, `cells`, `expand`: Nushell values as text, cells and tables
- `result`, `order`, `listing`, `export`: Results, sort keys, sorted and filtered views,
  clipboard formats
- `engine`, `scope`: requests, reports, completeness of a source, commands and variables
- `highlight`: styled runs of a source
- `paths`, `grid`, `panels`, `workspace`, `settings`: opened cells, the virtual table, what
  panels and bars say, the state of a Session, the settings file

Public proof functions named `law_…` state what holds across functions, such as that a
listing is unique, that a key opens its cell and that every step keeps a Session sound.

What the library takes from Nushell's crates stands behind a few small functions: parsing a
source and flattening it into shapes, the commands that an engine declares, the text of a
duration and the style of a shape. `app/` evaluates pipelines, reads files and the
environment, computes in floating point and draws with GPUI.
