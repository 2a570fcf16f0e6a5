# game_trees

Monte Carlo tree search for turn-based games, with two games to search (backgammon
and a counting game, Nim to a hundred), written in Verus and verified.

- `src/game/mod.rs`: the `GameState` trait the search works through, with the
  mathematical model of states, moves and scores that its contracts speak of.
- `src/game/backgammon.rs`: backgammon positions, single moves, the legal plays of a
  throw of the dice (the longest ones, sorted and without repeats) and scores.
- `src/game/nim.rs`: the counting game.
- `src/mcts_hashtable.rs`: the search table: playouts, the most robust move, the
  statistics of the upper-confidence-bound rule and garbage collection.
- `src/notation.rs`: how moves, throws and positions are written and read.
- `app/main.rs`: the program that plays backgammon against a person on the terminal.
