use vstd::prelude::*;

use super::{GameState, Score};

verus! {

/// A game of nim to a hundred: the players take turns adding 1 to 10 to a running
/// total; whoever reaches exactly 100 wins, overshooting costs both players.
///
/// The first field is the total, the second the player to move. Additions wrap
/// around like the `u32` arithmetic of a release build.
pub struct Nim(u32, bool);

/// The total at which the game ends.
pub const TARGET: u32 = 100;

/// The largest number a player may add.
pub const MAX_TAKE: u32 = 10;

impl View for Nim {
    type V = (u32, bool);

    closed spec fn view(&self) -> (u32, bool) {
        (self.0, self.1)
    }
}

/// The number of legal additions for a total: at most ten, and never beyond 100 (with
/// the subtraction wrapping around past 100).
pub open spec fn spec_move_count(total: u32) -> u32 {
    let room = vstd::wrapping::u32_specs::wrapping_sub(TARGET, total);
    if room < MAX_TAKE { room } else { MAX_TAKE }
}

/// The scores of a finished game, by player in the order `false`, `true`: at exactly
/// 100 the player who reached it wins a point and the player to move `p` loses one;
/// past 100 both lose five.
pub open spec fn spec_nim_scores(v: (u32, bool)) -> Option<Seq<(bool, Score)>> {
    let (total, p) = v;
    if total >= TARGET {
        let mine: Score = if total == TARGET { (-1) as Score } else { (-5) as Score };
        let theirs: Score = if total == TARGET { 1 } else { (-5) as Score };
        if p {
            Some(seq![(false, theirs), (true, mine)])
        } else {
            Some(seq![(false, mine), (true, theirs)])
        }
    } else {
        None
    }
}

impl Nim {
    /// A game with the given total and player to move.
    pub fn from_parts(total: u32, player: bool) -> (n: Nim)
        ensures
            n@ == (total, player),
    {
        Nim(total, player)
    }

    /// The running total.
    pub fn total(&self) -> (t: u32)
        ensures
            t == self@.0,
    {
        self.0
    }
}

impl GameState for Nim {
    type Move = u32;

    type Player = bool;

    open spec fn valid(&self) -> bool {
        true
    }

    open spec fn applicable(&self, m: u32) -> bool {
        true
    }

    open spec fn next(&self, m: u32) -> (u32, bool) {
        (vstd::wrapping::u32_specs::wrapping_add(self@.0, m), !self@.1)
    }

    open spec fn over(&self) -> bool {
        self@.0 >= TARGET
    }

    open spec fn to_move(&self) -> bool {
        self@.1
    }

    open spec fn player_list() -> Seq<bool> {
        seq![false, true]
    }

    open spec fn final_scores(&self) -> Seq<(bool, Score)> {
        match spec_nim_scores(self@) {
            Some(v) => v,
            None => Seq::empty(),
        }
    }

    open spec fn start() -> (u32, bool) {
        (0u32, false)
    }

    open spec fn lists_legal(&self, ms: Seq<u32>) -> bool {
        ms == Seq::new(spec_move_count(self@.0) as nat, |i: int| (i + 1) as u32)
    }

    open spec fn same_move(a: u32, b: u32) -> bool {
        a == b
    }

    proof fn lemma_view_determines(a: &Self, b: &Self, m: u32) {
    }

    proof fn lemma_same_move(s: &Self, a: u32, b: u32) {
    }

    proof fn lemma_legal_list_unique(s: &Self, a: Seq<u32>, b: Seq<u32>) {
    }

    fn new() -> (s: Self)
        ensures
            s@ == (0u32, false),
    {
        Nim(0, false)
    }

    fn apply(&mut self, m: u32) {
        self.0 = self.0.wrapping_add(m);
        self.1 = !self.1;
    }

    fn players() -> (ps: Vec<bool>) {
        let ps: Vec<bool> = vec![false, true];
        assert(ps@ =~= seq![false, true]);
        ps
    }

    fn current_player(&self) -> (p: bool) {
        proof {
            assert(seq![false, true][if self@.1 { 1int } else { 0int }] == self@.1);
        }
        self.1
    }

    fn legal_moves(&self) -> (ms: Vec<u32>)
        ensures
            ms@ == Seq::new(spec_move_count(self@.0) as nat, |i: int| (i + 1) as u32),
    {
        let room = TARGET.wrapping_sub(self.0);
        let count = if room < MAX_TAKE { room } else { MAX_TAKE };
        let mut ms: Vec<u32> = Vec::new();
        let mut m: u32 = 1;
        while m < count + 1
            invariant
                1 <= m <= count + 1,
                count <= MAX_TAKE,
                ms@ == Seq::new((m - 1) as nat, |i: int| (i + 1) as u32),
            decreases count + 1 - m,
        {
            ms.push(m);
            assert(ms@ =~= Seq::new(m as nat, |i: int| (i + 1) as u32));
            m += 1;
        }
        ms
    }

    fn scores(&self) -> (r: Option<Vec<(bool, Score)>>)
        ensures
            r matches Some(v) ==> spec_nim_scores(self@) == Some(v@),
    {
        if self.finished() {
            let p = self.1;
            let mine: Score = if self.0 == TARGET { -1 } else { -5 };
            let theirs: Score = if self.0 == TARGET { 1 } else { -5 };
            let mut m: Vec<(bool, Score)> = Vec::new();
            if p {
                m.push((false, theirs));
                m.push((true, mine));
            } else {
                m.push((false, mine));
                m.push((true, theirs));
            }
            assert(super::board_players(m@) =~= seq![false, true]);
            assert(m@ =~= spec_nim_scores(self@).unwrap());
            Some(m)
        } else {
            None
        }
    }

    fn finished(&self) -> (b: bool) {
        self.0 >= TARGET
    }

    fn copy_state(&self) -> (r: Self) {
        Nim(self.0, self.1)
    }

    fn same_state(&self, other: &Self) -> (b: bool) {
        self.0 == other.0 && self.1 == other.1
    }

    fn same_player(a: &bool, b: &bool) -> (r: bool) {
        *a == *b
    }

    fn clone_move(m: &u32) -> (r: u32) {
        *m
    }
}


/// Before the game is over a legal addition never takes the total past 100.
pub proof fn lemma_moves_stay_within_target(total: u32, m: u32)
    requires
        total < TARGET,
        1 <= m <= spec_move_count(total),
    ensures
        total + m <= TARGET,
{
}

/// Reaching exactly 100 is zero-sum; overshooting costs both players five points.
pub proof fn lemma_nim_scores(v: (u32, bool))
    requires
        v.0 >= TARGET,
    ensures
        spec_nim_scores(v) matches Some(b) && b.len() == 2 && (
            if v.0 == TARGET { b[0].1 + b[1].1 == 0 } else { b[0].1 == -5 && b[1].1 == -5 }),
{
}

} // verus!
