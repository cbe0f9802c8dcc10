# nabla_game

The rules engine of the Nabla operator card game, written in Verus: every
function under `src/` carries a contract that Verus proves.

- `game/` - cards and their one-byte encoding, deck composition, settings,
  the field, the online-match session, the move and match logs, and the AI
  (`ai.rs`): enumerating every legal move with its predicted field, score and
  flags (the expression engine's results are handed in as plain values),
  marking moves that hand the opponent a win, the hard rules, scoring, the
  lookahead ranking by difficulty and the final choice of move.
- `events/mousedown_handler.rs` - the turn-phase machine a click moves
  through, the Mult/Div operand selection, the derivative-card step, the
  end-of-turn card discard, the linear-dependence cleanup and the replay of
  the other player's turn from its clicks.
- `basis/`, `math/` - the symbolic-expression data model, fractions and
  function composition.
- `render/` - the click-id vocabulary and colour codes of the hit regions.
- `app/` - browser-side glue (DOM status text, the retrying colour picker,
  the online session holder and the loop that drives a replay).
