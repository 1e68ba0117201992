# sorb

A small UNIX-style shell with hidden terminal games and a terminal chat.

- `src/` is the library, written and proved with Verus: what a typed line
  runs, tab completion of commands, the keyboard state of the game engine,
  the high-score table, the Snake, Tetris and Space Invaders games as state
  machines, Flappy Bird's difficulty table, and the chat's arguments,
  framing, window and key handling. Each game state has a view and a
  well-formedness predicate; the public proof functions (`lemma_*`) state
  the laws the games and the engine keep.
- `app/` is the program around it: the line editor, processes and
  directories, the terminal screen and its drawing, the high-score file,
  the network, and the two games whose physics is floating point (Dino and
  Flappy Bird).
- `tests/` runs the library on concrete cases.

Type `sorb-snake`, `sorb-dino`, `sorb-flappy`, `sorb-tetris` or
`sorb-invaders` at the prompt to play; Q or Esc returns to the shell. High
scores are kept in `~/.sorb/scores.json`, the command history in
`~/.sorb_history`. Started under the name `sorb-chat`, the program runs the
chat: `sorb-chat server <port>` or `sorb-chat client <host> <port> <name>`.
