# chess_engine

A chess engine: move generation, a hand-tuned evaluation, a negamax alpha-beta search
with a transposition table, killer moves, quiescence search with delta pruning and
static exchange evaluation, iterative deepening under a depth or a clock, a UCI front
end, and a small window to play and analyse in.

`src/` is the engine itself, written and proved with Verus: every public function
states what it does in its contract, and the laws that hold across functions stand as
proof functions.

- `board/` - squares, pieces, moves, castling rights, the position and how a move is
  played and taken back (`rules`, `board`), the zobrist hash kept in step with it
  (`zobrist`, `hashing`), attack tables (`attacks`), the move generator (`movegen`),
  mate, stalemate and draws (`status`), and FEN (`fen`).
- `evaluate.rs` - the evaluation; `symmetry.rs` - why it favours neither color.
- `transposition.rs` - the transposition table.
- `search/` - alpha-beta and quiescence (`mod`), move ordering (`ordering`), static
  exchange evaluation (`exchange`), position counting (`perft`), and the value each
  search answers, written as the recursion it walks (`value`).
- `clock.rs` - time controls, game clocks and the budget of one move.
- `uci.rs` - the UCI protocol: commands in, answers out.
- `stockfish.rs` - reading Stockfish's answers; `storage.rs` - stored positions and
  games as lines of text; `panel.rs` - what the window reads out.
- `text.rs` - decimal numbers, words and the like.

`app/` is the program around it: the window (eframe), the UCI loop over stdin, the
`eval-fen` command, and the files and the Stockfish process the window talks to.

`tests/` runs the engine on concrete positions.
