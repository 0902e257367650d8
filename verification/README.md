# game

The authoritative simulation of a small isometric strategy game, verified with Verus.

* `src/` is the verified library:
  * `map` — the dense terrain grid (`index = y * width + x`), walkability.
  * `pathfinding` — breadth-first search over walkable cells; its result is proved to be a
    shortest path, and `None` is proved to mean that no path exists.
  * `world` — units, spawning, move and attack orders (validated as a whole before any unit
    changes), cooldowns, damage, deaths; every operation keeps the world well formed.
  * `connection` — the rejection messages sent to clients and the fixed-step clock that
    cuts real time into simulation ticks.
  * `protocol` — grid positions, ids and client commands.
* `app/` is the client program: continuous (floating-point) unit positions, the local
  server connection, and the Bevy rendering and input.
* `tests/` exercises the library on concrete inputs.
