# ahc_solvers

Verified solvers for two grid puzzles, written in Verus.

- **Board tours** (`grid`, `moves`, `relocate`, `window`, `descent`, `cycle*`,
  `guided`, `band`, `strips`, `strip_assembly`, `interleave`, `penalty*`,
  `rank_window`, `continuation`,
  `solvers`): a route visits every cell of an `n x n` board once, consecutive
  cells a king move apart, and scores the sum of step times cell weight. The
  library builds routes (snakes, banded and strip constructions, interleaved
  lane routes), improves them (2-opt, relocations, exact window reordering by
  dynamic programming, with breaks and long rank jumps priced, penalty
  continuation over breaks) and proves that
  every result is a route and that improvements never lose score.
- **Territory game** (`bitboard`, `patterns`, `connected`, `territory`, `judge`,
  `tokens`, `messages`, `rng`): board rules, move legality and scoring, and the judge that reads
  and checks outputs.

`src/` is the verified library; `app/` holds the command-line program
(reading instances, timing, printing); `tests/` runs the library on concrete
cases.
