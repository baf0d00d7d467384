# half2k

The core of a chess engine, written in Verus: board representation, move
generation, repetition detection, endgame knowledge, opening book lookup and
the integer arithmetic of its neural-network evaluations, each function with a
contract that Verus proves.

## Layout

- `src/` — the verified library.
  - `types`, `bitboard`, `moves`, `attacks`, `magic`: squares, bitboards,
    moves and attack sets (the magic tables are proved equal to the rays).
  - `attack_laws`: attack sets are symmetric, so the attackers of a square
    are exactly the pieces whose own attack set holds it.
  - `board`, `zobrist`, `fen`: the position, its incrementally kept key,
    make/unmake (proved to undo each other) and FEN reading and writing
    (printing then reading gives the position back; a printed FEN read and
    printed again is the same text).
  - `movegen`, `ordered_movegen`: pseudo-legal and legal generation (each
    move once, in the generator's order, which fixes the list), and the
    ordered generator whose output is pinned down move by move.
  - `cuckoo`, `book`, `endgame`, `evaluation`: repetition one move away, the
    opening book, known endgames, and the score adjustments.
  - `features`, `nnue`, `nnue_sf`, `sf_threats`, `nnue_sf256`, `nnue_q900`,
    `nnue_juntas`: network inputs, accumulators (incremental updates proved equal to a
    rebuild), stored network formats (writing then reading gives the network
    back, and a written file read and written again gives the same bytes) and
    forward passes.
  - `weights`: the hand-written evaluation's tunable weights as the flat
    vector the tuner works on (`to_vec`, `from_vec`, `with_king_silenced`).
- `tests/` — tests on concrete positions and networks.
- `app/` — the command-line driver: the perft suite, the cross-check of the
  two generators, the win/draw/loss model (floating point) and the magics.

## What is not here

- The hand-written evaluation itself (`positional_terms` and the terms it
  sums) and the default weight values: the engine evaluates with its
  networks. Its weights are here as one flat vector, not as named fields.
- The incremental Stockfish-format accumulator kept per thread
  (`acc_incremental`, `delta_por_lance`) and the extraction of that network's
  threat and pawn-pair inputs from a board: they rest on a feature mapping
  this library does not contain. The network's forward pass over given
  feature lists is here.
- The threats and v3 networks.
- The accumulator carried by the board and fed by `make_move`: the board
  here holds the position only; the accumulators of `nnue` are kept apart
  and updated by their own functions.
- The floating-point parts (the win/draw/loss model, converting trained
  float weights): in `app/`.
