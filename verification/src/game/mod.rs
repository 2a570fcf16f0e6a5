pub mod backgammon;
pub mod nim;

use vstd::prelude::*;

verus! {

/// A score: points won (positive) or lost (negative).
pub type Score = i64;

/// Scores by player, in the order of `GameState::players`.
pub type ScoreBoard<P> = Vec<(P, Score)>;

/// The players of a score board, in order.
pub open spec fn board_players<P>(b: Seq<(P, Score)>) -> Seq<P> {
    b.map_values(|e: (P, Score)| e.0)
}

/// A turn-based game, seen from its states.
///
/// Besides the moves and players of the game, an implementation gives the search code
/// what it needs to handle states and moves by value: copies and comparisons that keep
/// their meaning, and a description of moves by their effect.
pub trait GameState: Sized + View {
    /// A move.
    type Move;

    /// A player, as the score board names it.
    type Player;

    /// The state is one the game can reach (what the methods below need of it).
    spec fn valid(&self) -> bool;

    /// `apply` can carry out the move in this state.
    spec fn applicable(&self, m: Self::Move) -> bool;

    /// The state after the move.
    spec fn next(&self, m: Self::Move) -> Self::V;

    /// The game is over.
    spec fn over(&self) -> bool;

    /// The scores of a finished game, by player in the order of `players`.
    spec fn final_scores(&self) -> Seq<(Self::Player, Score)>;

    /// The player to act.
    spec fn to_move(&self) -> Self::Player;

    /// The players, in the order of `players` and of score boards.
    spec fn player_list() -> Seq<Self::Player>;

    /// Two moves have the same effect on every state.
    spec fn same_move(a: Self::Move, b: Self::Move) -> bool;

    /// The starting state.
    spec fn start() -> Self::V;

    /// `ms` is the list of the legal moves of the state, in the order in which
    /// `legal_moves` gives them.
    spec fn lists_legal(&self, ms: Seq<Self::Move>) -> bool;

    /// What the search relies on of states is a function of their views.
    proof fn lemma_view_determines(a: &Self, b: &Self, m: Self::Move)
        requires
            a@ == b@,
        ensures
            a.valid() == b.valid(),
            a.over() == b.over(),
            a.applicable(m) == b.applicable(m),
            a.next(m) == b.next(m),
            a.to_move() == b.to_move(),
            a.final_scores() == b.final_scores(),
            forall|ms: Seq<Self::Move>| a.lists_legal(ms) == b.lists_legal(ms),
    ;

    /// `lists_legal` fixes the list of legal moves, up to moves with the same effect.
    proof fn lemma_legal_list_unique(s: &Self, a: Seq<Self::Move>, b: Seq<Self::Move>)
        requires
            s.lists_legal(a),
            s.lists_legal(b),
        ensures
            a.len() == b.len(),
            forall|i: int| 0 <= i < a.len() ==> Self::same_move(#[trigger] a[i], b[i]),
    ;

    /// Moves with the same effect can stand for each other.
    proof fn lemma_same_move(s: &Self, a: Self::Move, b: Self::Move)
        requires
            Self::same_move(a, b),
        ensures
            s.applicable(a) == s.applicable(b),
            s.next(a) == s.next(b),
    ;

    /// The starting state.
    fn new() -> (s: Self)
        ensures
            s.valid(),
            s@ == Self::start(),
    ;

    /// Carries out a move.
    fn apply(&mut self, m: Self::Move)
        requires
            old(self).valid(),
            old(self).applicable(m),
        ensures
            final(self).valid(),
            final(self)@ == old(self).next(m),
    ;

    /// The legal moves of the state.
    fn legal_moves(&self) -> (ms: Vec<Self::Move>)
        requires
            self.valid(),
        ensures
            self.lists_legal(ms@),
            forall|i: int| 0 <= i < ms@.len() ==> self.applicable(#[trigger] ms@[i]),
    ;

    /// All players.
    fn players() -> (ps: Vec<Self::Player>)
        ensures
            ps@ == Self::player_list(),
    ;

    /// The player to act.
    fn current_player(&self) -> (p: Self::Player)
        requires
            self.valid(),
        ensures
            p == self.to_move(),
            Self::player_list().contains(p),
    ;

    /// The final scores, by player in the order of `players`; `None` while the game goes on.
    fn scores(&self) -> (r: Option<Vec<(Self::Player, Score)>>)
        requires
            self.valid(),
        ensures
            r is Some <==> self.over(),
            r matches Some(v) ==> v@ == self.final_scores(),
            self.over() ==> board_players(self.final_scores()) == Self::player_list(),
    ;

    /// Whether the game is over.
    fn finished(&self) -> (b: bool)
        requires
            self.valid(),
        ensures
            b == self.over(),
    ;

    /// The moves that can still be made: none once the game is over, else the legal moves.
    fn possible_moves(&self) -> (ms: Vec<Self::Move>)
        requires
            self.valid(),
        ensures
            self.over() ==> ms@.len() == 0,
            !self.over() ==> self.lists_legal(ms@),
            forall|i: int| 0 <= i < ms@.len() ==> self.applicable(#[trigger] ms@[i]),
    {
        if self.finished() {
            Vec::new()
        } else {
            self.legal_moves()
        }
    }

    /// A copy of the state.
    fn copy_state(&self) -> (r: Self)
        ensures
            r@ == self@,
    ;

    /// Whether two states are the same.
    fn same_state(&self, other: &Self) -> (b: bool)
        ensures
            b == (self@ == other@),
    ;

    /// Whether two players are the same.
    fn same_player(a: &Self::Player, b: &Self::Player) -> (r: bool)
        ensures
            r == (*a == *b),
    ;

    /// A copy of a move.
    fn clone_move(m: &Self::Move) -> (r: Self::Move)
        ensures
            Self::same_move(*m, r),
    ;
}

} // verus!
