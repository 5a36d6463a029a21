# flip_seven

A verified library for the card game Flip Seven, with a command-line table.

- `src/hand.rs` — a hand as a bit mask of cards; adding cards, scoring, text.
- `src/deck.rs` — the draw pile: copies left of each card, random draws,
  discards and reshuffles (`src/deck/card.rs` names the special cards).
- `src/dp_solver.rs` — the expected-value advisor: the exact value of
  hitting against staying, as a fraction.
- `src/action.rs` — actions and recommendations.
- `src/strategy.rs`, `src/player.rs` — strategies and seats.
- `src/game.rs` — rounds and turns: stepping, applying actions, scoring,
  and the score table.
- `src/text.rs`, `src/command.rs` — number and table text, and reading
  strategy specs and typed commands.
- `app/main.rs` — the interactive table (command line, terminal I/O).
- `tests/` — scenarios and laws on concrete values.
