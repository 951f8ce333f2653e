# icfp_spica

Verified tools for the ICFP Programming Contest 2024 problems: the
expression language and its encoding, the two-dimensional board language,
Lambda-Man and Spaceship solvers. The library is written in Verus; every
function in `src/` carries a contract that Verus proves.

## Layout

- `src/` — the library.
  - `base94`, `expr`, `eval`: the string/integer encodings, tokens and
    expressions, and an evaluator that counts beta reductions.
  - `scheme`, `notation`, `printer`, `cps`, `compiler`: translations and
    printers of expressions.
  - `scmcomp`: the Scheme-to-ICFP compiler front: a Scheme program read
    from its tokens, and compiled to the one expression that computes its
    `res`.
  - `planar`, `boxes`, `packing`: the two-dimensional board language.
  - `lambdaman`, `randomman`, `solver`: Lambda-Man maps, random-walk seeds
    and the programs that replay them.
  - `spaceship`, `plan`, `trivial`, `lookahead`, `lasolver`, `resolve`,
    `nearest`, `order`, `beam`, `beamsearch`: Spaceship thrust encodings,
    visit plans, the look-ahead best-first search, the three-point velocity
    optimizer, the exhaustive search near the origin (`box_search`),
    nearest-point and beam-search routes.
  - `lifegame`: a Game of Life board.
  - `bignum`, `text`: big integers (over `num-bigint`) and string helpers.
- `tests/` — tests of the library.
- `app/` — the command-line program around the library (file and terminal
  I/O), and a floating-point simulated-annealing driver.
