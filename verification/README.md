# chess_engine

A chess engine for boards of configurable size (the standard 8x8 board and a 10x12
variant), speaking the UCI protocol.

- `src/` is the verified library: bitboards, piece movement, the board with move
  generation, making and taking back moves and the Zobrist hash kept up to date move by
  move, FEN reading, the UCI command parser and the decisions of a UCI session, the names of
  the evaluators,
  algebraic and coordinate notation, move-path counting, the material evaluator and the
  integer inputs that the learned evaluators read. Every function there carries a
  contract proved by Verus; the laws that relate several functions (taking back a move
  restores the board, generated moves can be played, a move changes only the squares it
  touches, written moves read back) are public proof functions.
- `app/` is the program around it: the UCI loop on standard input and output, the
  alpha-beta search with floating-point scores (threads, a shared transposition table),
  the learned evaluators and their JSON model files.
- `tests/` runs the library on concrete positions.
