# powergrid

Verified rules and decision logic for a Power Grid game server, its clients
and its bots, written in Verus. Every function under `src/` carries a contract
that Verus proves; `app/` holds what cannot be verified (wire formats with
serde, floating-point network arithmetic, the lobby's room registry glue, the
client's window and viewport state, and command-line handling).

Modules of the library:

- `types`, `market`, `state`, `action`: the game vocabulary, the resource and
  plant markets, the game state the decisions read, and moves.
- `map`, `board`, `network`, `preview`: the board (cities, and waypoints that
  connections name but no city has), its construction from map data,
  cheapest connection routes (Dijkstra), the cheapest network joining a
  set of cities to a player's network (subset recurrence over shortest routes,
  then the cheapest forest of parts each joined to the network), and the
  cheapest order to build a selection of cities.
- `features`, `buying`, `heuristic`: plant scoring, fuel purchase planning,
  and the heuristic's choices where a phase leaves no strategic choice.
- `encoding`, `macros`: the learned policy's action space (legal moves, action
  mask, decoding) and its macro-action layer (expansion, legality with
  deduplication, teacher labels).
- `policy`: framing checks of the networks' weight files.
- `schedule`: paired evaluation schedules and seat assignment.
- `lobby`, `server`, `labels`: lobby rules, sign-up and login checks, the
  connection handshake, result crediting, and display labels.
- `client`: the game client's step from a click or server message to its
  pending choices and the move it sends.
- `text`: string comparison, decimal parsing, and the calls into std's
  Unicode tables.

Tests are under `tests/`.
