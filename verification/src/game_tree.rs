use vstd::prelude::*;

use crate::game::GameState;

verus! {

/// A tree of game states: a value for the root and a subtree for each move from it.
///
/// The children are kept as a list of moves with their subtrees.
pub struct GameTree<G: GameState, T> {
    pub value: T,
    pub children: Vec<(G::Move, GameTree<G, T>)>,
}

} // verus!
