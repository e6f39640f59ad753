# life-backend

A backend for Conway's Game of Life and other Life-like cellular automata, written
in Verus: each function carries a contract, and the contracts are proved.

- `src/rule.rs`: rules in the birth/survival notation (`"B3/S23"`, or `"23/3"`),
  parsing and writing them; writing then parsing gives the rule back.
- `src/position.rs`, `src/sealed.rs`: cell positions over the primitive integer
  types (the `Coordinate` trait is sealed to them), their Moore neighbourhoods and
  text.
- `src/boardrange.rs`, `src/board.rs`: boards of live cells (a set hashed by
  `fnv`) and their bounding boxes, the smallest boxes that hold all live cells.
- `src/game.rs`: a game advances its board by one generation exactly as the rule
  says of each cell and its neighbours.
- `src/format/`: the Plaintext and RLE pattern formats: parsers stated as line-by-line
  state machines over the text, writers stated over the text they give, builders
  from sets of cells, and laws (`laws.rs`, `rle_laws.rs`, `rle_bounds.rs`) that
  reading what was written gives the pattern back and that the live cells of a read
  pattern lie within its width and height.
- `src/text.rs`: characters, lines, trimming and decimal numbers.
- `app/lib.rs`: opening a pattern file by its extension.
- `tests/`: scenarios run against the compiled library.
