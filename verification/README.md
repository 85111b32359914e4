# hexgame

Game logic of a two-player war game on a radial hex map, verified with Verus.

- `src/` is the verified library:
  - `coord`: cube coordinates and neighbours;
  - `tile`: terrain and tiles;
  - `hexgrid`: the hex grid of the `chickenwire` crate, used through a few
    trusted calls, and the 10-ring game map;
  - `mapfile`: the scan order of the map and the one-byte-per-hex map file,
    with the save/load round-trip laws;
  - `units`: units, their kinds and combat;
  - `movement`: the movement search and the move order;
  - `search_laws`: what the movement search computes, stated over walks on
    the map: each hex is first reported at its fewest number of steps, and a
    free hex within reach is where a move order takes the unit;
  - `sprites`: which sprite-sheet cell is drawn for what, and cube rounding;
  - `statehandler`: the game state and the decisions of the map creator and
    the war game.
- `app/` is the program around it: window, input, GPU rendering, text,
  floating-point screen geometry, and reading and writing map files.
- `tests/` runs the library on concrete values.
