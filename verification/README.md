# astray

A* pathfinding gone astray: grid paths for laser-cut drawings. On a grid of
open and blocked cells the library finds a shortest-looking A* route, or a
"longest" path: a greedy walk that keeps stepping to the neighbour furthest
from the goal, never revisits a cell, never crosses one of its own diagonals,
and links through already visited cells to fresh territory when it is stuck.

The library is written in Verus. Every function in `src/` carries a
contract that Verus proves, except `astar_grid` in `src/route.rs`: its
contract describes the `pathfinding` crate's A* search and is trusted, not
proved.

- `src/grid.rs`: the grid of blocked cells and helpers on rows of flags.
- `src/moves.rs`: king moves, corner cutting, neighbour lists, distances.
- `src/route.rs`: the A* route, through the `pathfinding` crate.
- `src/explore.rs`: the breadth-first search for the nearest unvisited cell.
- `src/longest.rs`: the longest-path walk, its link segments and its laws.
- `src/line.rs`: Bresenham lines between cells.
- `src/scene.rs`: which cells a scene blocks, default start and goal cells.
- `src/kinds.rs`, `src/polyline.rs`: shapes, drawing layers, polylines.
- `src/walls.rs`: the set of wall cells the user paints.
- `src/controls.rs`: the decisions of the interactive viewer (keys, mouse),
  with the laws of wall-line dragging and of right clicks.

`app/` holds the program around the library: arguments, the boundary shapes
(floating point), SVG and DXF export, and the window.
