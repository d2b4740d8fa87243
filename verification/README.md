# tavern

A Santorini engine with its proofs: bitboard positions, move generation, Zobrist
hashing, heuristics, game-tree searches (minimax, negamax, alpha-beta, and alpha-beta
with a transposition table), and the game logic around them: the record of a game, the
picture of a move being entered, a person's progress, and the state machine of a client
playing a computer opponent.

- `src/` is the library, verified with Verus: `game` (board, rules, searches),
  `service` (players, games, progress, search reports), `client` (the client's state
  machine and the decisions of a local game).
- `tests/` runs the library on concrete positions.
- `app/` is a terminal program around the library: the computer player's worker
  thread, timing, profile files, games between computer players.
