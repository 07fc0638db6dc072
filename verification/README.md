# quoridor

A Quoridor engine written in Verus. What is proved of each part is what its
contracts state: the rules of play exactly; the searches from scratch find a
way exactly when one exists, the way to the opponent is a shortest one, the way
to the goal row at most one move longer than a shortest one, and the distance
boards of the negamax bot give the fewest steps to the goal row. Of the
incremental searches only their bookkeeping is proved, not that their
distances are the fewest steps (they are not always). Of the bots the moves
they return are proved playable, and the alpha-beta line is proved a line of
play whose end its score evaluates while no table entry is used; that the
scores are the game-tree values is not proved.

## Layout

- `src/` — the library, verified with Verus:
  - `data_model`, `game_logic`: the board, the moves and the rules of play.
  - `search`, `a_star`, `a_star_to_opponent`, `l_p_a_star`, `priority_queue`:
    ways to the goal row or to the opponent, from scratch and incrementally as
    walls are placed.
  - `bot::abe`: alpha-beta search with move ordering, a transposition table and
    iterative deepening.
  - `bot::dedi`: negamax over per-square distance boards.
  - `bot::carlo`: the board kept up to date move by move for a Monte Carlo tree
    search: an incremental breadth-first search per player, the walls that may
    still be placed, the moves with their stats, and the winner of a playout
    with what each node on its path gains.
  - `bot::monte`: move generation for random playouts.
  - `agent`: bit sets of walls and squares, paths and the walls that cut them,
    and a bot that steps at random.
  - `session`, `commands`, `render_board`, `clock`: a game in progress, the move
    notation and its import and export, the text board, and time keeping.
- `app/` — the terminal program: argument handling, input and output, threads,
  and the parts of the bots that rank moves by floating-point scores.
- `tests/` — tests of the library on concrete games.
