# matt_magie

A chess engine matchup manager: it plays two UCI engines against each other,
keeps the board and the clocks, and writes the finished game as PGN.

The library under `src/` is verified with Verus; `app/` holds the program
around it (processes, threads, files, the time stamps of the log).

- `square`, `movement`: the 10x12 mailbox board and how pieces move on it.
- `board`: a board with its history; lists the legal moves of a side with
  the replies they allow, plays and takes back moves, reads and writes the
  placement part of FEN.
- `model`, `zobrist`, `move_gen_service`: the board the manager keeps in
  step with the engines, its position hash, and its legal move generation.
- `notation_util`: coordinate notation ("e2e4", "e7e8q").
- `fen_service`, `service`, `clock`, `pgn`: the start position and FEN of a
  game, the end of a game and its result, the clocks, and the PGN record.
- `uci`: the match between two engines as a state machine: what is sent
  to which engine on each line it writes, when the first move is asked
  for, and when the game ends. `app/` runs the loop and does the I/O.

On the board of `board`, taking a move back restores the board, listing
moves leaves the board as it was, every listed move leaves the mover's
king unattacked, and a FEN placement read onto the board is written back
unchanged. On the board of `model`, taking a move back restores every
restorable move, and every move that the legal move generator returns is
restorable, so taking back any generated move restores the board; the same
moves leave the mover's king unattacked and carry a true check mark (queen
promotions aside). The moves asked for one square are that square's share of
the moves of the whole board, and a move printed in coordinate notation
reads back as the same move. These are stated and proved in `board`,
`notation_util`,
`model` and `move_gen_service`.
