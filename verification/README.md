# hanjie

A nonogram (hanjie) puzzle game. The game logic is a library verified with
Verus; a thin bevy application drives it.

## Layout

- `src/` — the verified library
  - `puzzle.rs`: puzzle descriptions, the active puzzle, the puzzles folder
    as the game sees it, and the move to the selection screen once loaded.
  - `action.rs`: puzzle selection and solve events; which puzzle a
    selection activates, and which cells a click reaches.
  - `solve/`: the cells of the puzzle grid (their states and how actions
    change them), the layout rules of cells, clues and the grid, and the
    order in which cells are created.
  - `layout/`: placement and sizing rules, and the bookkeeping of resize
    reports (the order in which resized elements can be settled, and the
    counts reported for a batch).
  - `grid.rs`: the column-by-column order of grid cells.
  - `input.rs`, `ui.rs`, `ui/select.rs`: what mouse and keyboard input asks
    for, button labels and outlines, the puzzles offered for selection.
  - `game.rs`, `game/`: the first version of the board, with its own
    actions.
- `app/` — the bevy application: plugins, systems, rendering, asset
  loading, and the floating-point geometry (alignment, sizing, hit tests).
- `tests/` — tests of the library.

Every public function of the library states its result in its contract;
the laws that relate several functions are public proof functions next to
them (for instance `click_changes_exactly_the_cells_under_it`,
`selecting_an_offered_puzzle_activates_it`,
`resolution_excludes_stuck_set`).
