# varde

The pure core of a terminal code editor, written in Verus: every function
under `src/` carries a contract that Verus proves, and the properties that
span several functions are stated and proved as `law_*` proof functions.

Modules:

- `text` — characters, lines, widths, and the few facts only the standard
  library and `unicode-width` can answer.
- `layout` — where the panes, splits, chips and overlays go on the screen.
- `words`, `editor` — the buffer: motions, edits, operators, undo, search and
  replace, completion, reformatting, indentation guides.
- `fold` — blocks derived from indentation, what a fold hides, and the
  toggles a window of lines carries.
- `debug` — Breakpoints carried across edits, the Variables tree, Watches,
  the Hover, the Evaluator, Inline values and the debugger's chips.
- `hunks`, `format`, `authorship`, `blame` — what a diff (through `git2`)
  says about a file, and the edits and authorship read off it.
- `grammar`, `highlight` — the grammar set and its line-at-a-time parse,
  driven through `syntect`; token kinds from the scopes it leaves open, a
  whole source highlighted as one parse, and tokens carried across an edit.
- `history` — cursor history: which jumps are remembered, and the way back.
- `filter` — fuzzy matching and ranking of paths.
- `json`, `session` — the Debug session's conversation: JSON read and
  written through `serde_json`, requests numbered and remembered, and the
  adapter's responses, events and reverse requests read.
- `keys` — the keyboard: the drafts it keeps between keystrokes, what a key
  does while a modal is open (the questions, the pickers, the name and
  comment boxes), the routing beneath once no modal claims a key (word
  motions, focus, the find, the `:` line and its commands, the AI box, the
  tree's filter, jumps, arrows, Tab, the panes' own keys), the project
  search's keys, and the cheatsheet and Chord hint tables. The routing reads
  the editor around a key as plain values (`Around`).

`app/` is the edge: a terminal's key events turned into the library's
`Key`, a `:speed` pace read as a number, and the messages the library asks
to send framed for the adapter's pipe.

Outside crates are reached only through small wrappers marked
`#[verifier::external_body]`, each with a contract stating what the crate
documents. `tests/` runs the library with those crates linked.
