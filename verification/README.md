# Mythos

A UCI chess engine whose rules, search, evaluation and tools are verified with
Verus.

`src/` is the library. Its contracts are stated over a mathematical model of
chess:

- `rules` says what a position is, how pieces move, what a legal move is and what
  a position becomes; `checks` says what checks and pins leave a player to do.
- `types`, `bits`, `bitboard`, `attacks`, `position`, `movegen`, `zobrist` and
  `fen` are the board: squares, bitboards, attacks, making and taking back moves,
  move generation, hashes, and positions as text. `perft` counts positions.
- `eval`, `tables` and `symmetry` are the hand-crafted evaluation and its color
  symmetry; `nnue` is the network's features, accumulator and file format.
- `tree` describes the search as a function of what the engine has in mind and of
  how positions are judged, and `search` carries it out, with `tt`, `see` and `clock` beside it.
- `uci` understands the protocol; `text` and `cli` read and write text.
- `referee` and `arena` run matches, `datagen` generates training data,
  `training` reads it back and lays weights out, `web` answers the browser.

Public proof functions whose names start with `law_` state what holds across
functions.

`app/` is the program around the library: standard input and output, threads,
files, sockets, child processes, and everything in floating point.
`tests/` runs the library.
