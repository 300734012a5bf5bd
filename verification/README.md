# word_grid

Find and score words on a square letter grid, and play timed or endless rounds of the word
game on rolled cube boards. The library is written in Verus. Its functions have contracts
that Verus proves, except a few small trusted wrappers around the standard library and
`rand` (`push_char`, `to_upper`, `utf8_to_str`, `random_below` and the `Duration` helpers in
`durations.rs`), whose contracts are taken on trust.

## Layout

- `src/text.rs` — trimming, ASCII lower case and decimal notation on character sequences.
- `src/grid.rs` — square boards, neighbours, paths and the words they spell.
- `src/dictionary.rs` — word lists with word and prefix lookups.
- `src/solver.rs` — the search for every word on a board, listed longest first.
- `src/word_score.rs`, `src/scoring.rs` — the fixed table and configurable scoring tables.
- `src/cube.rs`, `src/rules.rs`, `src/roll.rs` — cube sets, game rules and board rolls.
- `src/game_match.rs` — matches: players, phases, submissions, review of a round and totals.
- `src/session.rs`, `src/client.rs` — what the game client decides from player input and
  match notices, and the text it shows.
- `src/output.rs`, `src/cli.rs` — the command line: arguments and printed results.
- `app/main.rs` — the command-line program: it reads the word list from disk and prints;
  `app/round_clock.rs` rounds the round clock's seconds with floating point.
- `tests/` — tests of the library.

## Command line

```sh
word_grid --size 2 --min-length 3 --dict words.txt c a t s
```

The word list defaults to `twl06.txt`.
