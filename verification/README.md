# oxidized_chess

A bitboard chess engine whose core is verified with Verus.

- `src/` — the verified library: attack tables with magic indexing (`pieceinit`,
  `piececonstants`, `slider_init`), the board and its queries (`engine`), hash keys
  (`zobrist`), packed moves and playing them (`moves`), move generation by check and pin
  masks (`movegen`), FEN reading (`fen`), move ordering (`ordering`), evaluation and static
  exchange (`eval`), the transposition table (`ttable`), the alpha-beta search (`search`)
  and the parts of the UCI commands that compute (`uci`).
- `app/` — the UCI front end: reading commands, printing boards and search reports, and the
  floating-point Fourier helpers built on `rustfft`.
- `tests/` — tests of the library on concrete positions, perft counts among them.

## Behaviour worth knowing

- Slider attacks are looked up at their magic slot. `AttackTables::new` and
  `init_slider_attacks2` fill each slider's segment at the slot its magic number gives an
  occupancy; `AttackTables::new` returns `None` exactly when a magic number would send two
  occupancies with different attacks to one slot (`magics_sound`). The segments of
  `init_slider_attacks2` follow one another as the original's pointer tables lay them out.
- The evaluation blends the middlegame and endgame scores with integer arithmetic
  (`taper`); there is no floating point in the library.
- Input that cannot be set up is refused, never a panic: a `position` command that names
  no position or holds an unreadable FEN leaves the board as it was, and a move that cannot
  be played ends the set-up where it stands (`position_refused`, `moves_reach`).
- A position without both kings scores 0 in the search and counts 0 positions in perft.
  The move picker ends its phases when a generated list holds an empty move.
- Time is counted in milliseconds; a search without a time limit (`None`) is never stopped.
  `search_position` returns the transposition move after the last iteration that finished;
  an iteration cut short by the time limit is neither reported nor used.
- `is_draw` applies the fifty-move rule (a half-move count of 50 or more) and repetitions.
- `perft_div` pairs each root move with the number of positions below it.
- Moves are written and read in lower-case coordinate notation (`e2e4`, `e7e8q`).
