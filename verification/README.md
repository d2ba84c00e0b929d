# arena_bot

A verified library for a bot that plays a turn-based arena game on a grid,
together with two small grid tools. The library in `src/` is written in
Verus. Verus proves the contract of every function there, except four
small wrappers in `archive` around calls into the `zip` crate: their
contracts are trusted, and their doc comments say what they claim.

- `line` — integer line tracing between two cells (Bresenham), with the
  exact cell sequence as its contract.
- `grid` — a breadth-first search over a rectangular grid: the walk it finds
  reaches the goal area, no walk does in fewer moves, and of the shortest
  walks it is the first in the order of the move list; when it finds none,
  no walk reaches the goal area at all.
- `navigate` — a hero's next step towards a target area (moves of three
  cells, eight directions, walls avoided).
- `labyrinth` — shortest paths through a labyrinth of walls (four
  directions).
- `protocol` — the data exchanged with the arena server.
- `client` — the client's memory and the planning of a turn: enemies seen are
  remembered, the nearest is targeted, heroes shoot when the line of fire is
  clear and otherwise take their best-scored move; with no target they walk
  towards the centre of the map.
- `archive` — the entry names of a ZIP archive held in memory, read through
  the `zip` crate.

`app/` holds the program around the library: file reading, JSON decoding,
the WebSocket loop and console input and output. `tests/` exercises the
library on concrete values.
