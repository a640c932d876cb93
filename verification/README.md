# resource_collection

A terminal simulation in which autonomous robots explore a generated map and
bring resources back to a base. Scouts wander and report what they see;
collectors claim a known deposit, fetch one unit at a time and unload it at
the base, which aggregates every report into a shared knowledge.

Layout:

- `src/` — the verified library (Verus):
  - `types.rs`: positions, Manhattan distance, neighbours.
  - `posmap.rs`: maps and sets keyed by position, with `Map`/`Set` views.
  - `map.rs`: the world (terrain, deposits, robots, totals) and its layout.
  - `knowledge.rs`: the shared knowledge, nearest available target, and how
    each message updates it.
  - `message.rs`: robot-to-base messages.
  - `path.rs`: breadth-first pathfinding, proved to return the first step of a
    shortest path exactly when one exists.
  - `robot.rs`: the per-tick decisions of scouts and collectors.
  - `render.rs`: what each cell shows.
  - `rng.rs`: the calls into `rand`, with the contracts they are trusted for.
  - `laws.rs`: properties across calls (claims, depletion, path progress).
- `app/` — the program: threads, channel, locks, terrain noise and the Ratatui
  display.
- `tests/` — tests of the library on concrete values.
