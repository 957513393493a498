# arbor

Monte Carlo tree search for two-player games, verified with Verus, together with the
games it plays.

- `game`: the interface a game implements (`GameState`, `Player`, `Action`), with its
  rules stated as spec functions.
- `search`, `advance`, `builder`: the search tree kept in one flat stack, UCT
  selection (optionally blended with RAVE statistics, or by the PUCT rule with the
  game's move priors), random or custom evaluation, the MCTS-Solver, transposition
  detection, playing a move while keeping the subtree below it, and the search
  settings.
- `fixed`: fixed-point arithmetic (values in millionths, logarithm and square root).
- `rng`: the outside random sources (`rand_xorshift`, `getrandom`).
- `fixtures`: two small games with known answers (a subtraction game and a slot
  game).
- `checkers`, `onestone`, `chessbattle70`: American checkers, EinStein würfelt nicht,
  and a 7x10 chess variant with Falcons and Mammoths, each with its text board
  (`render`) and status line (`status`).
- `labels`: the interface's labels for the AI settings.

`app/` holds a console program that plays any of the three games against the search:
`app checkers`, `app chess` or `app onestone`.
