use vstd::prelude::*;

verus! {

/// What the program does after one step of waiting for the search to explore the
/// position: stop waiting, say that it is thinking, or show one more dot (and wait a
/// second before the next step).
#[derive(PartialEq, Eq, Structural, Clone, Copy, Debug)]
pub enum WaitAction {
    Done,
    Announce,
    Dot,
}

/// One step of the computer's wait for its move, with `countdown` steps left: once the
/// search has explored the position the wait ends at once, else one step is used up;
/// the first of the remaining steps (countdown 5) announces the thinking, the others
/// show a dot, and the last ends the wait.
pub fn wait_step(countdown: u8, explored: bool) -> (r: (u8, WaitAction))
    requires
        countdown > 0,
    ensures
        r.0 == (if explored { 0 } else { countdown - 1 }),
        r.1 == (if r.0 == 0 { WaitAction::Done } else if r.0 == 5 { WaitAction::Announce } else { WaitAction::Dot }),
{
    let next: u8 = if explored { 0 } else { countdown - 1 };
    if next == 0 {
        (next, WaitAction::Done)
    } else if next == 5 {
        (next, WaitAction::Announce)
    } else {
        (next, WaitAction::Dot)
    }
}

/// The number of states past which the search stops adding to its table and waits for
/// the game to move on.
pub const TABLE_LIMIT: usize = 1048576;

/// The number of playouts the search runs between two looks at the game.
pub const PLAYOUTS_PER_ROUND: u32 = 32;

/// The most moves a playout makes.
pub const PLAYOUT_MOVES: u32 = 400;

/// Whether the search waits, its table holding `len` states: once it holds more than
/// `TABLE_LIMIT`.
pub fn search_waits(len: usize) -> (r: bool)
    ensures
        r == (len > TABLE_LIMIT),
{
    len > TABLE_LIMIT
}

/// How the game stands after a play.
#[derive(PartialEq, Eq, Structural, Clone, Copy, Debug)]
pub enum TurnEnd {
    GoOn,
    HumanWon,
    ComputerWon,
}

/// How the game stands after a play by the person (`human_turn`) or the computer: the
/// player who moved has won once the game is finished.
pub fn turn_end(human_turn: bool, finished: bool) -> (r: TurnEnd)
    ensures
        r == (if !finished { TurnEnd::GoOn } else if human_turn { TurnEnd::HumanWon } else { TurnEnd::ComputerWon }),
{
    if !finished {
        TurnEnd::GoOn
    } else if human_turn {
        TurnEnd::HumanWon
    } else {
        TurnEnd::ComputerWon
    }
}

} // verus!
