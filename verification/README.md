# kanban-bridge, verified

Converts a Trello board export (JSON) into an Obsidian Kanban markdown file,
and a Kanban markdown file back into a minimal Trello-shaped export. The
library under `src/` is written in Verus; every function carries a contract
over mathematical models of its inputs and results, and Verus proves it.

Layout:

- `src/json.rs` and `src/json/`: the JSON reader (`grammar.rs` states what it
  reads, `parser.rs` does it), the compact writer (`emit.rs`), string escaping
  (`escape.rs`), and the law that what the writer writes reads back as the
  same value (`round_trip.rs`).
- `src/trello.rs` and `src/trello/`: importing a board from an export and
  exporting a board; laws that an export imports back as the same board
  (`round_trip.rs`) and that an import accounts for every entry
  (`accounting.rs`).
- `src/position.rs` and `src/position/`: the order of Trello `pos` numbers,
  given by order keys that the command line computes from each number's
  `f64` value, and a stable sort by it with its laws (`order.rs`).
- `src/obsidian.rs` and `src/obsidian/`: writing and reading the markdown
  board, and the law that a written board reads back (`round_trip.rs`).
- `src/cli.rs`: argument handling and the conversion summaries.
- `src/text.rs`: character, line and number-text helpers.
- `app/main.rs`: the command line itself (files, printing, exit codes).
- `tests/`: tests of the library on concrete inputs.

Positions compare as binary64 floats do: the library keeps each number as
its text, and `app/` reads the floats and hands the library an order key per
number (`json::number_tokens` lists the numbers of a document).
