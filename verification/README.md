# conway

A multiplayer Conway's Game of Life engine on a wrapping (toroidal) grid, with
walls, fog of war and per-player ownership of cells, written in Verus. The
executable functions carry contracts and are proved against them, except two
small wrappers around std calls (`String::push` and `char::from_u32`), whose
contracts are trusted.

Layout of `src/`:

- `region.rs`: rectangular regions and their intersection.
- `cell_state.rs`: the states a cell can be in and their one-character names.
- `bitwise.rs`: the word-parallel Life rule and neighbour predicates, proved
  bit by bit against the rule on single cells.
- `bit_grid.rs`: grids of 64-cell words, region updates, copying, runs.
- `life.rs`: the meaning of one generation step over whole grids.
- `fog.rs`: the fog circle bitmap and clearing fog around newly born cells.
- `gen_state.rs`: one generation's state (cells, walls, knowledge, players),
  writing characters into it, reading runs out of it, and diffs between two
  generations.
- `rle.rs`: run-length encoded patterns: writing them from grids and state
  pairs, and reading them back.
- `universe.rs`: the builder, the universe with its circular history buffer,
  cell edits, stepping, listing non-dead cells, applying diffs and rendering
  as text.

Tests live in `tests/`.
