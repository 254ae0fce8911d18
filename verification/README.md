# resource_sim

A terminal simulation in which scout robots explore a procedurally generated grid and
report what they find to a central base, while collector robots fetch the known resources
one unit at a time and bring them back to the base.

The simulation logic is a library verified with Verus; the terminal interface, the
threads and the map generation (which draws on floating-point Perlin noise) are ordinary
Rust around it.

## Layout

- `src/` — the verified library
  - `model.rs`: positions, robots, resources, messages, and the base, which takes the
    robots' reports into account (`Base::process_incoming`)
  - `collections.rs`: finite sets and maps of positions
  - `map.rs`: the grid of tiles
  - `grid.rs`: the grid as a graph: adjacency, reachability, shortest first steps
  - `search.rs`: breadth-first search for the next step towards a target
  - `pathfinding.rs`: random steps, steps towards a target, choice of the nearest deposit
  - `robot.rs`: what a scout and a collector do in one tick
  - `world.rs`: the shared state, and one tick of one robot
  - `display.rs`: what the interface shows (symbols, counters, recent events)
  - `text.rs`: decimal notation of numbers in log lines
  - `rng.rs`: the random draws the robots make
- `app/` — the program: map generation, one thread per robot, the terminal interface, logs
- `tests/` — tests of the library

## Main guarantees

- The base registers each discovery once, forgets a deposit once it is reported empty,
  and counts each delivered unit; the log line of every message is given exactly.
- A robot never steps onto another robot, an obstacle, or off the map, and moves by at
  most one cell per tick; a world whose deposits all hold units and whose robots stand on
  free cells stays so after every tick.
- The step towards a target is the first step of a shortest way, taken in the first
  direction (up, down, left, right) in which such a way begins; there is none exactly when
  the robot is on its target, the target cannot be reached, or it is taken and next door.
- A collector heads for the nearest known deposit it can reach; a harvest takes exactly one
  unit off the map.
