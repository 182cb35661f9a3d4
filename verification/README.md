# mp — Maze Wars 3D game logic, verified

A networked grid shooter: up to four humans (topped up with bots) walk a
maze one cell at a time, turn in quarter turns and fire lasers down their
line of sight. The rules of the game live in the library under `src/`,
written in Verus and proved against their contracts; the programs around
it (the UDP server loop and the macroquad client) live under `app/`.

Library modules:

- `levels` — the built-in maps, the map text format, and the random
  depth-first-search maze (its passages form a tree that reaches every room).
- `game`, `physics` — players, laser beams, occupancy, line of sight,
  shooting, spawn cells.
- `ai` — one tick of a bot.
- `server`, `handlers`, `tick` — the server's state machine: sessions,
  joins and departures, the host, rounds, time-outs and the per-tick upkeep.
  Each step returns events (replies, map broadcasts, log lines) that the
  server loop carries out.
- `launcher`, `editor`, `scoreboard`, `controls` — the client's connection
  launcher and its history file, the map editor, the scoreboard order, and
  the per-frame decisions (connection phase, `Join` and heartbeat timing,
  which keys send which messages).
- `laws` — properties that span several calls.
- `rng` — the random choices, drawn from `rand`.

Positions are grid cells and times are whole ticks or nanoseconds; the
programs convert to the floating-point coordinates and seconds that the
wire format and the renderer use.

Run the server with `server [--port P] [--bots true|false] [--level N]`;
any other arguments open the client (`--ip HOST[:PORT] --name NAME`, or the
launcher when none are given).
