# battleform

The rules engine of a hex-grid real-time strategy arena in which bots and AI
agents fight over energy, written in Verus: every function of the library
carries a contract, and Verus proves the code against it.

## Layout

- `src/` — the verified library.
  - `hex`: offset and cube coordinates, distance, neighbours, hexagonal regions.
  - `state`, `config`, `engine`: the game's data, unit statistics, terrain costs
    and the engine state with its invariant.
  - `pathfinding`: A* search; a returned path is a cheapest walk, and an empty
    one means no walk exists.
  - `commands`, `combat`, `harvesting`: the phases of a tick.
  - `fog`: per-player visibility.
  - `snapshot`, `replay`: what spectators are sent, and what a view becomes
    once a diff is applied.
  - `bot_ai`: the autopilot.
  - `game`: the match loop, win conditions and scoring at the configured
    time limit.
  - `maps`: start positions, resource layout and the initial state.
  - `mcp`: the tool calls agents make, decided without I/O; every answer is
    limited to what the calling player can see.
  - `ids`: fresh unit and building identifiers.
- `tests/` — the scenarios of the game's rules, run against the compiled library.
- `app/` — a headless local match, the MCP server over standard input and
  output, wire formats (JSON, MessagePack) and terrain generation, which works
  in floating point.
