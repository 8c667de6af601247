# rustris

The rules of a falling-block puzzle game, verified with Verus.

- `src/pieces.rs`: the seven shapes, a piece and how it turns, moves and
  falls; the piece dealt by a word of the random generator.
- `src/game.rs`: the board, redrawing the falling piece and its shadow, the
  tests that a move is allowed, resting pieces, clearing full rows, levels,
  the preview panels, and the game's operations with their contracts and laws.
- `app/main.rs`: the window, keyboard and clock (SDL2) around the game.
- `tests/`: the game played on fixed words of the generator.

Every operation that draws a random piece has a twin taking the generator's
word as an argument (`Game::from_words`, `fall_or_place_with`, `hold_with`),
whose contract states the result exactly.
