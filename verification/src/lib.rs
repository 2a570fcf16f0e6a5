//! Game trees for turn-based games: a backgammon and a nim engine, and a
//! Monte Carlo tree search table over any game that implements
//! [`game::GameState`].
pub mod game;
pub mod mcts_hashtable;
pub mod notation;
pub mod turn;
pub mod game_tree;
