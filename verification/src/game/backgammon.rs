use vstd::prelude::*;

use super::{GameState, Score};

verus! {

/// A point of the board, numbered from 1 to 24 (0 and 25 alias the bar and home).
#[derive(PartialEq, Eq, Structural, Hash, PartialOrd, Ord, Copy, Clone, Debug)]
pub struct Point(pub u8);

/// The number of checkers of one player on one location.
#[derive(PartialEq, Eq, Structural, Hash, PartialOrd, Ord, Copy, Clone, Debug)]
pub struct StackHeight(pub u8);

/// `None` stands for the dice, `Some(true)` for white and `Some(false)` for black.
pub type Player = Option<bool>;

/// The two dice, highest first.
pub type Roll = (u8, u8);

/// A place where checkers can stand.
#[derive(PartialEq, Eq, Structural, Hash, PartialOrd, Ord, Copy, Clone, Debug)]
pub enum Location {
    Board(Point),
    Bar,
    Home,
}

/// White and black stack heights on one location.
pub type Count = (StackHeight, StackHeight);

/// A location and the number of points a checker moves from it.
pub type SingleMove = (Location, u8);

/// The number of entries of `State::counts`: the bar, the 24 points and home.
pub const LOCATIONS: usize = 26;

/// The number of checkers each player owns.
pub const CHECKERS: u8 = 15;

impl Location {
    /// The entry of `State::counts` that this location uses.
    pub open spec fn idx(self) -> nat {
        match self {
            Location::Board(Point(n)) => n as nat,
            Location::Bar => 0,
            Location::Home => 25,
        }
    }

    /// The location names an entry of a table of `LOCATIONS` counts.
    pub open spec fn in_table(self) -> bool {
        self.idx() < LOCATIONS
    }
}

impl Location {
    /// The entry of `State::counts` that this location uses: the point's number, 0 for
    /// the bar, 25 for home.
    pub fn index(self) -> (r: usize)
        ensures
            r == self.idx(),
    {
        match self {
            Location::Board(Point(n)) => n as usize,
            Location::Bar => 0,
            Location::Home => 25,
        }
    }
}

impl From<Location> for usize {
    fn from(x: Location) -> (r: usize) {
        x.index()
    }
}

impl vstd::std_specs::convert::FromSpecImpl<Location> for usize {
    open spec fn obeys_from_spec() -> bool {
        true
    }

    open spec fn from_spec(v: Location) -> usize {
        v.idx() as usize
    }
}


/// A backgammon position.
#[derive(PartialEq, Eq, Hash, Debug)]
pub struct State {
    /// The player who moves next: `true` for white, `false` for black.
    pub player: bool,
    roll_turn: bool,
    /// White and black stack heights, indexed by `usize::from(location)`.
    pub counts: Vec<Count>,
    /// The dice of the current turn.
    pub dice: Roll,
}

/// The mathematical content of a [`State`].
#[verifier::ext_equal]
pub struct StateView {
    pub player: bool,
    pub roll_turn: bool,
    pub counts: Seq<Count>,
    pub dice: Roll,
}

impl View for State {
    type V = StateView;

    closed spec fn view(&self) -> StateView {
        StateView { player: self.player, roll_turn: self.roll_turn, counts: self.counts@, dice: self.dice }
    }
}

/// The stack height of player `p` in a count.
pub open spec fn own(c: Count, p: bool) -> u8 {
    if p { c.0.0 } else { c.1.0 }
}

impl StateView {
    /// The table of counts covers every location.
    pub open spec fn wf(self) -> bool {
        self.counts.len() == LOCATIONS
    }

    /// The stack height of player `p` on location `l`.
    pub open spec fn height(self, l: Location, p: bool) -> u8 {
        own(self.counts[l.idx() as int], p)
    }
}

impl State {
    /// Whether the dice are thrown next.
    pub fn roll_turn(&self) -> (r: bool)
        ensures r == self@.roll_turn,
    {
        self.roll_turn
    }

    /// Builds a position from its parts.
    pub fn from_parts(player: bool, roll_turn: bool, counts: Vec<Count>, dice: Roll) -> (s: State)
        ensures s@ == (StateView { player, roll_turn, counts: counts@, dice }),
    {
        State { player, roll_turn, counts, dice }
    }

    /// The white and black stack heights on `l`.
    pub fn count_at(&self, l: Location) -> (c: Count)
        requires
            self@.wf(),
            l.in_table(),
        ensures
            c == self@.counts[l.idx() as int],
    {
        self.counts[l.index()]
    }

    /// A copy of the position.
    pub fn copy(&self) -> (r: State)
        ensures r@ == self@,
    {
        let mut counts: Vec<Count> = Vec::with_capacity(self.counts.len());
        let mut i: usize = 0;
        while i < self.counts.len()
            invariant
                i <= self.counts.len(),
                counts@ == self.counts@.subrange(0, i as int),
            decreases self.counts.len() - i,
        {
            counts.push(self.counts[i]);
            i += 1;
        }
        assert(counts@ =~= self.counts@);
        State { player: self.player, roll_turn: self.roll_turn, counts, dice: self.dice }
    }
}

impl Clone for State {
    fn clone(&self) -> (r: State)
        ensures r@ == self@,
    {
        self.copy()
    }
}

/// The 24 points of the board, in increasing order.
pub open spec fn spec_board() -> Seq<Location> {
    Seq::new(24, |i: int| Location::Board(Point((i + 1) as u8)))
}

/// The six points of the home board of player `p`, nearest the edge first, then home.
pub open spec fn spec_homeboard(p: bool) -> Seq<Location> {
    Seq::new(6, |i: int| home_point(p, i)).push(Location::Home)
}

/// The `i`-th point of the home board of player `p`, counted from the edge.
pub open spec fn home_point(p: bool, i: int) -> Location {
    if p { Location::Board(Point((24 - i) as u8)) } else { Location::Board(Point((i + 1) as u8)) }
}

/// The location seen from the other side of the board.
pub open spec fn spec_flip(x: Location) -> Location {
    match x {
        Location::Board(Point(n)) => Location::Board(Point((25 - n) as u8)),
        Location::Home => Location::Home,
        Location::Bar => Location::Bar,
    }
}

/// Mirrors a location; a point `n` becomes `25 - n`.
pub fn flip(x: Location) -> (r: Location)
    requires
        x matches Location::Board(Point(n)) ==> n <= 25,
    ensures
        r == spec_flip(x),
{
    match x {
        Location::Board(Point(n)) => Location::Board(Point(25 - n)),
        Location::Home => Location::Home,
        Location::Bar => Location::Bar,
    }
}

/// The points of the board, 1 to 24.
pub fn board() -> (v: Vec<Location>)
    ensures
        v@ == spec_board(),
{
    let mut v: Vec<Location> = Vec::with_capacity(24);
    let mut n: u8 = 1;
    while n < 25
        invariant
            1 <= n <= 25,
            v@ == spec_board().subrange(0, n - 1),
        decreases 25 - n,
    {
        v.push(Location::Board(Point(n)));
        n += 1;
    }
    v
}

/// The home board of player `p` (points 19 to 24 for white, 1 to 6 for black), then home.
pub fn homeboard(p: bool) -> (v: Vec<Location>)
    ensures
        v@ == spec_homeboard(p),
{
    let mut v: Vec<Location> = Vec::with_capacity(6);
    let mut n: u8 = 1;
    while n < 7
        invariant
            1 <= n <= 7,
            v@ == spec_homeboard(p).subrange(0, n - 1),
        decreases 7 - n,
    {
        let l = Location::Board(Point(n));
        let l = if p { flip(l) } else { l };
        v.push(l);
        n += 1;
    }
    v.push(Location::Home);
    v
}

/// Whether player `p` has at least one checker on `l`.
pub fn any_loc(l: Location, p: bool, s: &State) -> (r: bool)
    requires
        s@.wf(),
        l.in_table(),
    ensures
        r == (s@.height(l, p) > 0),
{
    let counts = s.counts[l.index()];
    0 < if p { counts.0.0 } else { counts.1.0 }
}

/// Whether all fifteen checkers of player `p` stand on `l`.
pub fn all_loc(l: Location, p: bool, s: &State) -> (r: bool)
    requires
        s@.wf(),
        l.in_table(),
    ensures
        r == (s@.height(l, p) == CHECKERS),
{
    let counts = s.counts[l.index()];
    CHECKERS == if p { counts.0.0 } else { counts.1.0 }
}


/// The total stack height of player `p` over the locations `ls`.
pub open spec fn height_sum(sv: StateView, ls: Seq<Location>, p: bool) -> nat
    decreases ls.len(),
{
    if ls.len() == 0 {
        0
    } else {
        height_sum(sv, ls.drop_last(), p) + sv.height(ls.last(), p) as nat
    }
}

/// All checkers of player `p` are on its home board or home: their count there,
/// taken modulo 256 as `u8` arithmetic does, is fifteen.
pub open spec fn spec_all_homeboard(sv: StateView, p: bool) -> bool {
    height_sum(sv, spec_homeboard(p), p) % 256 == CHECKERS as nat
}

/// Whether every checker of player `p` stands on its home board or home.
///
/// The heights are added as `u8` values that wrap around, as the game's counters do.
pub fn all_homeboard(p: bool, s: &State) -> (r: bool)
    requires
        s@.wf(),
    ensures
        r == spec_all_homeboard(s@, p),
{
    let hb = homeboard(p);
    let ghost ls = spec_homeboard(p);
    let mut total: u8 = 0;
    let mut i: usize = 0;
    while i < hb.len()
        invariant
            hb@ == ls,
            ls == spec_homeboard(p),
            s@.wf(),
            i <= hb.len(),
            total as nat == height_sum(s@, ls.subrange(0, i as int), p) % 256,
        decreases hb.len() - i,
    {
        let n = hb[i];
        proof {
            if i < 6 {
                assert(ls[i as int] == home_point(p, i as int));
            }
        }
        let counts = s.counts[n.index()];
        let h = if p { counts.0.0 } else { counts.1.0 };
        proof {
            assert(ls.subrange(0, i + 1).drop_last() =~= ls.subrange(0, i as int));
            assert(ls.subrange(0, i + 1).last() == ls[i as int]);
        }
        total = total.wrapping_add(h);
        i += 1;
    }
    assert(ls.subrange(0, hb.len() as int) =~= ls);
    total == CHECKERS
}

/// The number of points moved, read as a signed byte.
pub open spec fn amount(n: u8) -> int {
    if n < 128 { n as int } else { n - 256 }
}

/// The index a checker of `player` on `l` moves from: white enters from 0, black from 25.
pub open spec fn start(player: bool, l: Location) -> int {
    if l == Location::Bar {
        if player { 0 } else { 25 }
    } else {
        l.idx() as int
    }
}

/// The index a checker of `player` reaches when it moves `n` points from `l`.
pub open spec fn target(player: bool, l: Location, n: u8) -> int {
    if player { start(player, l) + amount(n) } else { start(player, l) - amount(n) }
}

/// The target index fits in a signed byte.
pub open spec fn target_fits(player: bool, l: Location, n: u8) -> bool {
    -128 <= target(player, l, n) <= 127
}

/// The target lies past the last point of `player`: the checker goes home.
pub open spec fn goes_home(player: bool, l: Location, n: u8) -> bool {
    if player { target(player, l, n) > 24 } else { target(player, l, n) < 1 }
}

/// The counts on the index `i`, or none where `i` is off the table.
pub open spec fn counts_at(sv: StateView, i: int) -> Count {
    if 0 <= i < sv.counts.len() { sv.counts[i] } else { (StackHeight(0), StackHeight(0)) }
}

/// Whether the player to move may move a checker `n` points from `l`: it has a checker
/// there, the target holds at most one opposing checker (or is home, once all its
/// checkers are on the home board), and it has no checker on the bar unless it moves
/// from the bar.
pub open spec fn spec_legal_move(sv: StateView, l: Location, n: u8) -> bool {
    let p = sv.player;
    let to = target(p, l, n);
    let enemy = counts_at(sv, to);
    let from_ok = sv.height(l, p) >= 1;
    let to_ok = if p {
        (to > 24 && spec_all_homeboard(sv, true)) || (to <= 24 && enemy.1.0 <= 1)
    } else {
        (to < 1 && spec_all_homeboard(sv, false)) || (to >= 1 && enemy.0.0 <= 1)
    };
    let bar_ok = sv.height(Location::Bar, p) > 0 ==> l == Location::Bar;
    from_ok && to_ok && bar_ok
}

/// The target index of a move, computed in signed bytes.
fn target_index(player: bool, l: Location, n: u8) -> (r: i8)
    requires
        l.in_table(),
        target_fits(player, l, n),
    ensures
        r as int == target(player, l, n),
{
    let amt = n as i8;
    assert(n < 128 ==> amt == n) by (bit_vector)
        requires amt == n as i8;
    assert(n >= 128 ==> amt == n - 256) by (bit_vector)
        requires amt == n as i8;
    if player {
        let base: i8 = if l == Location::Bar { 0 } else { l.index() as i8 };
        base + amt
    } else {
        let base: i8 = if l == Location::Bar { 25 } else { l.index() as i8 };
        base - amt
    }
}

/// Whether the single move `m` is legal for the player to move in `s`.
pub fn legal_move(m: &SingleMove, s: &State) -> (r: bool)
    requires
        s@.wf(),
        m.0.in_table(),
        target_fits(s@.player, m.0, m.1),
    ensures
        r == spec_legal_move(s@, m.0, m.1),
{
    let (l, n) = *m;
    let from_count = s.counts[l.index()];
    let can_move_from = if s.player { from_count.0.0 >= 1 } else { from_count.1.0 >= 1 };
    let all_h_w = all_homeboard(true, s);
    let all_h_b = all_homeboard(false, s);
    let to_index = target_index(s.player, l, n);
    let enemy_count = if to_index >= 0 && (to_index as usize) < s.counts.len() {
        s.counts[to_index as usize]
    } else {
        (StackHeight(0), StackHeight(0))
    };
    let can_move_to = if s.player {
        (to_index > 24 && all_h_w) || (to_index <= 24 && enemy_count.1.0 <= 1)
    } else {
        (to_index < 1 && all_h_b) || (to_index >= 1 && enemy_count.0.0 <= 1)
    };
    let bar_check = if any_loc(Location::Bar, s.player, s) { l == Location::Bar } else { true };
    can_move_from && can_move_to && bar_check
}


/// A play (`Ok`: checker moves) or a throw of the dice (`Err`).
pub type Move = Result<Vec<SingleMove>, Roll>;

/// The game of backgammon.
#[derive(Clone, Copy)]
pub struct Backgammon;

/// One more checker of player `p` in a count (`u8` arithmetic that wraps around).
pub open spec fn add_checker(c: Count, p: bool) -> Count {
    if p {
        (StackHeight(vstd::wrapping::u8_specs::wrapping_add(c.0.0, 1)), c.1)
    } else {
        (c.0, StackHeight(vstd::wrapping::u8_specs::wrapping_add(c.1.0, 1)))
    }
}

/// One checker of player `p` less in a count (`u8` arithmetic that wraps around).
pub open spec fn remove_checker(c: Count, p: bool) -> Count {
    if p {
        (StackHeight(vstd::wrapping::u8_specs::wrapping_sub(c.0.0, 1)), c.1)
    } else {
        (c.0, StackHeight(vstd::wrapping::u8_specs::wrapping_sub(c.1.0, 1)))
    }
}

/// Where a checker of `player` lands when it moves `n` points from `l`.
pub open spec fn landing(player: bool, l: Location, n: u8) -> Location {
    if goes_home(player, l, n) {
        Location::Home
    } else {
        Location::Board(Point(target(player, l, n) as u8))
    }
}

/// The move can be carried out on a table of counts: it starts on the table, its target
/// fits in a signed byte and, unless the checker goes home, lies on the table.
pub open spec fn move_in_range(player: bool, l: Location, n: u8) -> bool {
    &&& l.in_table()
    &&& target_fits(player, l, n)
    &&& !goes_home(player, l, n) ==> 0 <= target(player, l, n) < LOCATIONS
}

/// The counts after `player` moves one checker `n` points from `l`: the checker leaves
/// `l` and arrives on its landing location; a lone opposing checker there (unless the
/// checker went home) is hit and goes to the bar.
#[verifier::opaque]
pub open spec fn step(counts: Seq<Count>, player: bool, m: SingleMove) -> Seq<Count> {
    let (l, n) = m;
    let from = l.idx() as int;
    let c1 = counts.update(from, remove_checker(counts[from], player));
    let to = landing(player, l, n).idx() as int;
    let hit = !goes_home(player, l, n) && own(c1[to], !player) > 0;
    let c2 = c1.update(to, add_checker(c1[to], player));
    if hit {
        let c3 = c2.update(to, remove_checker(c2[to], !player));
        c3.update(0, add_checker(c3[0], !player))
    } else {
        c2
    }
}

/// The counts after `player` makes the moves `ms` in order.
pub open spec fn steps(counts: Seq<Count>, player: bool, ms: Seq<SingleMove>) -> Seq<Count>
    decreases ms.len(),
{
    if ms.len() == 0 {
        counts
    } else {
        step(steps(counts, player, ms.drop_last()), player, ms.last())
    }
}

/// Every single move of a play can be carried out by `player`.
pub open spec fn moves_in_range(player: bool, ms: Seq<SingleMove>) -> bool {
    forall|i: int| 0 <= i < ms.len() ==> move_in_range(player, #[trigger] ms[i].0, ms[i].1)
}

/// `Backgammon::apply` can carry out the move in the position.
pub open spec fn can_apply(sv: StateView, m: Move) -> bool {
    match m {
        Ok(v) => moves_in_range(sv.player, v@),
        Err(_) => true,
    }
}

/// The position after a move: a play moves the checkers, passes the turn to the other
/// player and asks for the dice; a throw records the dice and lets the player move.
pub open spec fn spec_apply(sv: StateView, m: Move) -> StateView {
    match m {
        Ok(v) => StateView {
            player: !sv.player,
            roll_turn: true,
            counts: steps(sv.counts, sv.player, v@),
            dice: sv.dice,
        },
        Err(pair) => StateView { player: sv.player, roll_turn: false, counts: sv.counts, dice: pair },
    }
}

/// Carries out one single move of the player to move.
fn apply_single(s: &mut State, l: Location, n: u8)
    requires
        old(s)@.wf(),
        move_in_range(old(s)@.player, l, n),
    ensures
        final(s)@ == (StateView { counts: step(old(s)@.counts, old(s)@.player, (l, n)), ..old(s)@ }),
        final(s)@.wf(),
{
    let ghost c0 = s.counts@;
    let fi = l.index();
    let mut from = s.counts[fi];
    if s.player {
        from.0 = StackHeight(from.0.0.wrapping_sub(1));
    } else {
        from.1 = StackHeight(from.1.0.wrapping_sub(1));
    }
    s.counts[fi] = from;
    let to_index = target_index(s.player, l, n);
    let home_p = if s.player { to_index > 24 } else { to_index < 1 };
    let to_pos = if home_p { Location::Home } else { Location::Board(Point(to_index as u8)) };
    let enemy_hit = if home_p { false } else { any_loc(to_pos, !s.player, s) };
    let ti = to_pos.index();
    let mut to = s.counts[ti];
    if s.player {
        to.0 = StackHeight(to.0.0.wrapping_add(1));
    } else {
        to.1 = StackHeight(to.1.0.wrapping_add(1));
    }
    if enemy_hit {
        if s.player {
            to.1 = StackHeight(to.1.0.wrapping_sub(1));
        } else {
            to.0 = StackHeight(to.0.0.wrapping_sub(1));
        }
    }
    s.counts[ti] = to;
    if enemy_hit {
        let mut bar = s.counts[0];
        if s.player {
            bar.1 = StackHeight(bar.1.0.wrapping_add(1));
        } else {
            bar.0 = StackHeight(bar.0.0.wrapping_add(1));
        }
        s.counts[0] = bar;
    }
    proof {
        reveal(step);
    }
    assert(s.counts@ =~= step(c0, s.player, (l, n)));
}

impl Backgammon {
    /// Whether `apply` can carry out the move in the position: every single move of a
    /// play starts on the table and stays on it.
    pub fn can_apply_move(s: &State, m: &Move) -> (r: bool)
        requires
            s@.wf(),
        ensures
            r == can_apply(s@, *m),
    {
        match m {
            Ok(v) => {
                assert(can_apply(s@, *m) == moves_in_range(s@.player, v@));
                let mut i: usize = 0;
                while i < v.len()
                    invariant
                        i <= v@.len(),
                        s@.wf(),
                        can_apply(s@, *m) == moves_in_range(s@.player, v@),
                        forall|j: int| 0 <= j < i ==> move_in_range(s@.player, #[trigger] v@[j].0, v@[j].1),
                    decreases v@.len() - i,
                {
                    let (l, n) = v[i];
                    assert(v@[i as int] == (l, n));
                    if l.index() >= LOCATIONS {
                        assert(!move_in_range(s@.player, v@[i as int].0, v@[i as int].1));
                        assert(!moves_in_range(s@.player, v@));
                        return false;
                    }
                    let base: i32 = if l == Location::Bar { if s.player { 0 } else { 25 } } else { l.index() as i32 };
                    let amt: i32 = if n < 128 { n as i32 } else { n as i32 - 256 };
                    let to: i32 = if s.player { base + amt } else { base - amt };
                    assert(to == target(s@.player, l, n));
                    if to < -128 || to > 127 {
                        assert(!move_in_range(s@.player, v@[i as int].0, v@[i as int].1));
                        assert(!moves_in_range(s@.player, v@));
                        return false;
                    }
                    let home = if s.player { to > 24 } else { to < 1 };
                    if !home && (to < 0 || to >= LOCATIONS as i32) {
                        assert(!move_in_range(s@.player, v@[i as int].0, v@[i as int].1));
                        assert(!moves_in_range(s@.player, v@));
                        return false;
                    }
                    i += 1;
                }
                true
            },
            Err(_) => true,
        }
    }

    /// Whether the position is one the game functions accept: a count for every
    /// location and, when a play is due, dice in range.
    pub fn is_valid(s: &State) -> (r: bool)
        ensures
            r == (s@.wf() && (!s@.roll_turn ==> dice_ok(s@))),
    {
        s.counts.len() == LOCATIONS && (s.roll_turn || (s.dice.0 <= 103 && s.dice.1 <= 103))
    }

    /// Carries out a move: a play moves its checkers in the order given (counts that
    /// pass below zero wrap around and come back when later moves refill them), then
    /// passes the turn; a throw records the dice.
    pub fn apply(s: &mut State, m: Move)
        requires
            old(s)@.wf(),
            can_apply(old(s)@, m),
        ensures
            final(s)@ == spec_apply(old(s)@, m),
            final(s)@.wf(),
    {
        match m {
            Ok(v) => {
                let ghost s0 = s@;
                let mut i: usize = 0;
                while i < v.len()
                    invariant
                        s0.wf(),
                        moves_in_range(s0.player, v@),
                        i <= v.len(),
                        s@ == (StateView { counts: steps(s0.counts, s0.player, v@.subrange(0, i as int)), ..s0 }),
                        s@.wf(),
                    decreases v.len() - i,
                {
                    let (l, n) = v[i];
                    assert(move_in_range(s0.player, v@[i as int].0, v@[i as int].1));
                    apply_single(s, l, n);
                    assert(v@.subrange(0, i + 1).drop_last() =~= v@.subrange(0, i as int));
                    i += 1;
                }
                assert(v@.subrange(0, v.len() as int) =~= v@);
                s.roll_turn = true;
                s.player = !s.player;
            }
            Err(pair) => {
                s.roll_turn = false;
                s.dice = pair;
            }
        }
    }
}


/// A die whose value, added to the index of any point or of the bar, still fits in a
/// signed byte.
pub open spec fn die_in_range(d: u8) -> bool {
    d + 24 <= 127
}

/// Every die of a list is in range.
pub open spec fn dice_in_range(dice: Seq<u8>) -> bool {
    forall|i: int| 0 <= i < dice.len() ==> die_in_range(#[trigger] dice[i])
}

/// The locations from which the player to move has a checker to move: the points of
/// the board in increasing order, then the bar.
pub open spec fn spec_positions(sv: StateView) -> Seq<Location> {
    spec_board().push(Location::Bar).filter(|l: Location| sv.height(l, sv.player) > 0)
}

/// The position after the player to move makes the single move `m` and keeps the turn.
pub open spec fn after_single(sv: StateView, m: SingleMove) -> StateView {
    StateView { roll_turn: true, counts: step(sv.counts, sv.player, m), ..sv }
}

/// The views of a list of plays.
pub open spec fn views(r: Seq<Vec<SingleMove>>) -> Seq<Seq<SingleMove>> {
    r.map_values(|v: Vec<SingleMove>| v@)
}

/// The sequences that start with a die of value `roll` moved from one of `ps` (in the
/// order of `ps`), each followed by the sequences for the dice `rest`; every sequence
/// lists its moves last first.
pub open spec fn sequences_from(sv: StateView, ps: Seq<Location>, roll: u8, rest: Seq<u8>) -> Seq<Seq<SingleMove>>
    decreases rest.len() + 1, ps.len(),
{
    if ps.len() == 0 {
        seq![]
    } else {
        let before = sequences_from(sv, ps.drop_last(), roll, rest);
        let m = (ps.last(), roll);
        if spec_legal_move(sv, ps.last(), roll) {
            let later = spec_legal_sequences(after_single(sv, m), rest);
            before + later.map_values(|ms: Seq<SingleMove>| ms.push(m)) + seq![seq![m]]
        } else {
            before
        }
    }
}

/// The legal sequences of single moves for the dice `dice`, used from the last die to
/// the first; each sequence lists its moves last first.
pub open spec fn spec_legal_sequences(sv: StateView, dice: Seq<u8>) -> Seq<Seq<SingleMove>>
    decreases dice.len(), spec_positions(sv).len() + 1,
{
    if dice.len() == 0 {
        seq![]
    } else {
        sequences_from(sv, spec_positions(sv), dice.last(), dice.drop_last())
    }
}

/// A copy of a list of single moves.
pub fn copy_moves(v: &Vec<SingleMove>) -> (r: Vec<SingleMove>)
    ensures
        r@ == v@,
{
    let mut r: Vec<SingleMove> = Vec::with_capacity(v.len());
    let mut i: usize = 0;
    while i < v.len()
        invariant
            i <= v.len(),
            r@ == v@.subrange(0, i as int),
        decreases v.len() - i,
    {
        r.push(v[i]);
        i += 1;
    }
    assert(r@ =~= v@);
    r
}

/// A die in range moves any checker of the table within range.
pub proof fn lemma_die_in_range_moves(player: bool, l: Location, n: u8)
    requires
        move_source(l),
        die_in_range(n),
    ensures
        move_in_range(player, l, n),
        target_fits(player, l, n),
{
}

proof fn lemma_board_in_table(i: int)
    requires
        0 <= i < 25,
    ensures
        spec_board().push(Location::Bar)[i].in_table(),
        spec_board().push(Location::Bar)[i] matches Location::Board(_) || spec_board().push(Location::Bar)[i] == Location::Bar,
{
    if i < 24 {
        assert(spec_board().push(Location::Bar)[i] == spec_board()[i]);
    }
}

/// All legal sequences of single moves that use the dice from the last to the first
/// (as many as can be used, or fewer), each listed last move first.
pub fn legal_sequences(s: &State, dice: &[u8]) -> (r: Vec<Vec<SingleMove>>)
    requires
        s@.wf(),
        dice_in_range(dice@),
    ensures
        views(r@) == spec_legal_sequences(s@, dice@),
    decreases dice@.len(),
{
    let mut new_dice: Vec<u8> = Vec::with_capacity(dice.len());
    let mut k: usize = 0;
    while k < dice.len()
        invariant
            k <= dice@.len(),
            new_dice@ == dice@.subrange(0, k as int),
        decreases dice@.len() - k,
    {
        new_dice.push(dice[k]);
        k += 1;
    }
    assert(new_dice@ =~= dice@);
    let mut sequences: Vec<Vec<SingleMove>> = Vec::new();
    match new_dice.pop() {
        Some(roll) => {
            let ghost rest = new_dice@;
            assert(rest =~= dice@.drop_last());
            let mut all = board();
            all.push(Location::Bar);
            let ghost all_v = all@;
            let mut positions: Vec<Location> = Vec::new();
            let mut j: usize = 0;
            while j < all.len()
                invariant
                    all@ == all_v,
                    all_v == spec_board().push(Location::Bar),
                    s@.wf(),
                    j <= all.len(),
                    positions@ == all_v.subrange(0, j as int).filter(|l: Location| s@.height(l, s@.player) > 0),
                    forall|k: int| 0 <= k < positions@.len() ==> (#[trigger] positions@[k]).in_table(),
                decreases all.len() - j,
            {
                let l = all[j];
                proof {
                    lemma_board_in_table(j as int);
                    reveal_with_fuel(Seq::filter, 1);
                    assert(all_v.subrange(0, j + 1).drop_last() =~= all_v.subrange(0, j as int));
                }
                if any_loc(l, s.player, s) {
                    positions.push(l);
                }
                j += 1;
            }
            assert(all_v.subrange(0, all.len() as int) =~= all_v);
            assert(positions@ == spec_positions(s@));
            let ghost sv = s@;
            let ghost ps = positions@;
            assert(dice_in_range(rest));
            assert(die_in_range(roll)) by {
                assert(roll == dice@[dice@.len() - 1]);
            }
            let mut i: usize = 0;
            while i < positions.len()
                invariant
                    positions@ == ps,
                    ps == spec_positions(sv),
                    forall|k: int| 0 <= k < ps.len() ==> (#[trigger] ps[k]).in_table(),
                    s@ == sv,
                    sv.wf(),
                    new_dice@ == rest,
                    dice_in_range(rest),
                    die_in_range(roll),
                    rest.len() < dice@.len(),
                    i <= positions.len(),
                    views(sequences@) == sequences_from(sv, ps.subrange(0, i as int), roll, rest),
                decreases positions.len() - i,
            {
                let p = positions[i];
                let m = (p, roll);
                proof {
                    assert(ps[i as int] == p);
                    assert(ps.contains(p));
                    lemma_positions_are_sources(sv, p);
                    lemma_die_in_range_moves(sv.player, p, roll);
                    assert(ps.subrange(0, i + 1).drop_last() =~= ps.subrange(0, i as int));
                    assert(ps.subrange(0, i + 1).last() == p);
                }
                let mut s2 = s.copy();
                if legal_move(&m, &s2) {
                    let single: Vec<SingleMove> = vec![m];
                    assert(single@ =~= seq![m]);
                    Backgammon::apply(&mut s2, Ok(single));
                    s2.player = !s2.player;
                    proof {
                        assert(seq![m].drop_last() =~= Seq::<SingleMove>::empty());
                        assert(steps(sv.counts, sv.player, seq![m]) == step(steps(sv.counts, sv.player, Seq::<SingleMove>::empty()), sv.player, m));
                        assert(s2@ =~= after_single(sv, m));
                    }
                    let subs = legal_sequences(&s2, new_dice.as_slice());
                    let ghost later = spec_legal_sequences(after_single(sv, m), rest);
                    let ghost before = views(sequences@);
                    let mut t: usize = 0;
                    while t < subs.len()
                        invariant
                            views(subs@) == later,
                            t <= subs.len(),
                            views(sequences@) == before + later.subrange(0, t as int).map_values(|ms: Seq<SingleMove>| ms.push(m)),
                        decreases subs.len() - t,
                    {
                        let mut ms = copy_moves(&subs[t]);
                        ms.push(m);
                        let ghost prev = sequences@;
                        sequences.push(ms);
                        proof {
                            assert(later[t as int] == subs@[t as int]@);
                            assert(ms@ == later[t as int].push(m));
                            assert(views(sequences@) =~= views(prev).push(ms@));
                            assert(later.subrange(0, t + 1).map_values(|ms: Seq<SingleMove>| ms.push(m)) =~= later.subrange(0, t as int).map_values(|ms: Seq<SingleMove>| ms.push(m)).push(later[t as int].push(m)));
                            assert(views(sequences@) =~= before + later.subrange(0, t + 1).map_values(|ms: Seq<SingleMove>| ms.push(m)));
                        }
                        t += 1;
                    }
                    assert(later.subrange(0, subs.len() as int) =~= later);
                    let one: Vec<SingleMove> = vec![m];
                    sequences.push(one);
                    proof {
                        assert(one@ =~= seq![m]);
                        assert(views(sequences@) =~= views(sequences@.drop_last()).push(sequences@.last()@));
                    }
                }
                i += 1;
            }
            assert(ps.subrange(0, ps.len() as int) =~= ps);
        }
        None => {}
    }
    sequences
}


/// The rank of a location in the order of the enum: the points by number, then the
/// bar, then home.
pub open spec fn loc_rank(l: Location) -> int {
    match l {
        Location::Board(Point(n)) => n as int,
        Location::Bar => 256,
        Location::Home => 257,
    }
}

/// The rank of a single move in the order of its tuple: by location, then by amount.
pub open spec fn move_key(m: SingleMove) -> int {
    loc_rank(m.0) * 256 + m.1
}

/// The moves of a play are in increasing order.
pub open spec fn moves_sorted(ms: Seq<SingleMove>) -> bool {
    forall|i: int, j: int| 0 <= i < j < ms.len() ==> move_key(ms[i]) <= move_key(ms[j])
}

/// The lexicographic order of plays, the order of `Vec<SingleMove>`.
pub open spec fn lex_lt(a: Seq<SingleMove>, b: Seq<SingleMove>) -> bool
    decreases a.len(),
{
    if a.len() == 0 {
        b.len() > 0
    } else if b.len() == 0 {
        false
    } else if move_key(a[0]) != move_key(b[0]) {
        move_key(a[0]) < move_key(b[0])
    } else {
        lex_lt(a.drop_first(), b.drop_first())
    }
}

/// Plays in strictly increasing order.
pub open spec fn plays_increasing(ps: Seq<Seq<SingleMove>>) -> bool {
    forall|i: int, j: int| 0 <= i < j < ps.len() ==> lex_lt(ps[i], ps[j])
}

/// Two single moves with the same rank are the same move.
pub proof fn lemma_move_key_injective(a: SingleMove, b: SingleMove)
    requires
        move_key(a) == move_key(b),
    ensures
        a == b,
{
}

/// No play precedes itself.
pub proof fn lemma_lex_irreflexive(a: Seq<SingleMove>)
    ensures
        !lex_lt(a, a),
    decreases a.len(),
{
    if a.len() > 0 {
        lemma_lex_irreflexive(a.drop_first());
    }
}

/// The order of plays is transitive.
pub proof fn lemma_lex_transitive(a: Seq<SingleMove>, b: Seq<SingleMove>, c: Seq<SingleMove>)
    requires
        lex_lt(a, b),
        lex_lt(b, c),
    ensures
        lex_lt(a, c),
    decreases a.len(),
{
    if a.len() > 0 && b.len() > 0 && c.len() > 0 {
        if move_key(a[0]) == move_key(b[0]) && move_key(b[0]) == move_key(c[0]) {
            lemma_lex_transitive(a.drop_first(), b.drop_first(), c.drop_first());
        }
    }
}

/// Of two different plays one precedes the other.
pub proof fn lemma_lex_total(a: Seq<SingleMove>, b: Seq<SingleMove>)
    requires
        a != b,
    ensures
        lex_lt(a, b) || lex_lt(b, a),
    decreases a.len(),
{
    if a.len() > 0 && b.len() > 0 && move_key(a[0]) == move_key(b[0]) {
        lemma_move_key_injective(a[0], b[0]);
        if a.drop_first() == b.drop_first() {
            assert(a =~= seq![a[0]] + a.drop_first());
            assert(b =~= seq![b[0]] + b.drop_first());
        }
        lemma_lex_total(a.drop_first(), b.drop_first());
    } else if a.len() == 0 && b.len() == 0 {
        assert(a =~= b);
    }
}

/// The rank of a single move.
fn key_of(m: &SingleMove) -> (k: u32)
    ensures
        k as int == move_key(*m),
{
    let rank: u32 = match m.0 {
        Location::Board(Point(n)) => n as u32,
        Location::Bar => 256,
        Location::Home => 257,
    };
    rank * 256 + m.1 as u32
}

/// The moves of a play in increasing order, as `sort` on a vector of moves gives them.
pub fn sort_moves(v: &Vec<SingleMove>) -> (r: Vec<SingleMove>)
    ensures
        moves_sorted(r@),
        r@.to_multiset() == v@.to_multiset(),
{
    let mut r: Vec<SingleMove> = Vec::with_capacity(v.len());
    let mut i: usize = 0;
    assert(r@ =~= v@.subrange(0, 0));
    while i < v.len()
        invariant
            i <= v.len(),
            moves_sorted(r@),
            r@.to_multiset() == v@.subrange(0, i as int).to_multiset(),
            r@.len() == i,
        decreases v.len() - i,
    {
        let e = v[i];
        let ke = key_of(&e);
        let mut k: usize = 0;
        while k < r.len() && key_of(&r[k]) <= ke
            invariant
                k <= r.len(),
                forall|j: int| 0 <= j < k ==> move_key(r@[j]) <= ke,
            decreases r.len() - k,
        {
            k += 1;
        }
        proof {
            vstd::seq_lib::to_multiset_insert(r@, k as int, e);
            assert(v@.subrange(0, i + 1) =~= v@.subrange(0, i as int).push(e));
            vstd::seq_lib::to_multiset_build(v@.subrange(0, i as int), e);
        }
        let ghost old_r = r@;
        r.insert(k, e);
        proof {
            assert forall|a: int, b: int| 0 <= a < b < r@.len() implies move_key(r@[a]) <= move_key(r@[b]) by {
                if a < k && b > k {
                    assert(r@[b] == old_r[b - 1]);
                } else if a == k && b > k {
                    assert(r@[b] == old_r[b - 1]);
                } else if a > k {
                    assert(r@[a] == old_r[a - 1]);
                    assert(r@[b] == old_r[b - 1]);
                }
            }
        }
        i += 1;
    }
    assert(v@.subrange(0, v.len() as int) =~= v@);
    r
}

/// Compares two plays: whether the first precedes the second, and whether they are equal.
pub fn compare_plays(a: &Vec<SingleMove>, b: &Vec<SingleMove>) -> (r: (bool, bool))
    ensures
        r.0 == lex_lt(a@, b@),
        r.1 == (a@ == b@),
{
    let mut i: usize = 0;
    assert(a@.skip(0) =~= a@);
    assert(b@.skip(0) =~= b@);
    while i < a.len() && i < b.len()
        invariant
            i <= a.len(),
            i <= b.len(),
            a@.subrange(0, i as int) == b@.subrange(0, i as int),
            lex_lt(a@, b@) == lex_lt(a@.skip(i as int), b@.skip(i as int)),
        decreases a.len() - i,
    {
        let ka = key_of(&a[i]);
        let kb = key_of(&b[i]);
        assert(a@.skip(i as int)[0] == a@[i as int]);
        assert(b@.skip(i as int)[0] == b@[i as int]);
        if ka != kb {
            proof {
                if a@ == b@ {
                    assert(a@[i as int] == b@[i as int]);
                }
            }
            return (ka < kb, false);
        }
        proof {
            lemma_move_key_injective(a@[i as int], b@[i as int]);
            assert(a@.skip(i as int).drop_first() =~= a@.skip(i + 1));
            assert(b@.skip(i as int).drop_first() =~= b@.skip(i + 1));
            assert(a@.subrange(0, i + 1) =~= a@.subrange(0, i as int).push(a@[i as int]));
            assert(b@.subrange(0, i + 1) =~= b@.subrange(0, i as int).push(b@[i as int]));
        }
        i += 1;
    }
    proof {
        if a.len() == b.len() {
            assert(a@ =~= a@.subrange(0, i as int));
            assert(b@ =~= b@.subrange(0, i as int));
        }
    }
    (a.len() < b.len(), a.len() == b.len())
}

/// Adds a play to a list of plays in strictly increasing order, unless it is there.
pub fn insert_play(r: &mut Vec<Vec<SingleMove>>, x: Vec<SingleMove>)
    requires
        plays_increasing(views(old(r)@)),
    ensures
        plays_increasing(views(final(r)@)),
        forall|p: Seq<SingleMove>| views(final(r)@).contains(p) <==> (views(old(r)@).contains(p) || p == x@),
{
    let ghost vs = views(r@);
    let mut k: usize = 0;
    let mut stop = false;
    let mut same = false;
    while k < r.len() && !stop
        invariant
            views(r@) == vs,
            k <= r.len(),
            forall|j: int| 0 <= j < k ==> lex_lt(vs[j], x@),
            stop ==> k < r.len() && !lex_lt(vs[k as int], x@) && (same == (vs[k as int] == x@)),
        decreases r.len() - k + (if stop { 0int } else { 1int }),
    {
        let (less, equal) = compare_plays(&r[k], &x);
        if less {
            k += 1;
        } else {
            stop = true;
            same = equal;
        }
    }
    if stop && same {
        proof {
            assert forall|p: Seq<SingleMove>| views(r@).contains(p) <==> (vs.contains(p) || p == x@) by {
                if p == x@ {
                    assert(vs[k as int] == p);
                }
            }
        }
        return;
    }
    let ghost xv = x@;
    r.insert(k, x);
    proof {
        let nv = views(r@);
        assert(nv =~= vs.insert(k as int, xv));
        if stop {
            lemma_lex_total(vs[k as int], xv);
        }
        assert forall|a: int, b: int| 0 <= a < b < nv.len() implies lex_lt(nv[a], nv[b]) by {
            if b == k {
            } else if a == k {
                assert(nv[b] == vs[b - 1]);
                if b - 1 > k {
                    lemma_lex_transitive(xv, vs[k as int], vs[b - 1]);
                }
            } else if a < k && b > k {
                assert(nv[b] == vs[b - 1]);
                if b - 1 >= k {
                    lemma_lex_total(vs[k as int], xv);
                    if b - 1 > k {
                        lemma_lex_transitive(xv, vs[k as int], vs[b - 1]);
                    }
                    lemma_lex_transitive(vs[a], xv, vs[b - 1]);
                }
            } else if a > k {
                assert(nv[a] == vs[a - 1]);
                assert(nv[b] == vs[b - 1]);
            }
        }
        assert forall|p: Seq<SingleMove>| nv.contains(p) <==> (vs.contains(p) || p == xv) by {
            if nv.contains(p) {
                let j = choose|j: int| 0 <= j < nv.len() && nv[j] == p;
                if j < k {
                    assert(vs[j] == p);
                } else if j > k {
                    assert(vs[j - 1] == p);
                }
            }
            if vs.contains(p) {
                let j = choose|j: int| 0 <= j < vs.len() && vs[j] == p;
                if j < k {
                    assert(nv[j] == p);
                } else {
                    assert(nv[j + 1] == p);
                }
            }
            if p == xv {
                assert(nv[k as int] == p);
            }
        }
    }
}


/// Every single move of `ms` starts on the table and moves by one of the dice.
pub open spec fn moves_from(ms: Seq<SingleMove>, dice: Seq<u8>) -> bool {
    forall|j: int| 0 <= j < ms.len() ==> move_source((#[trigger] ms[j]).0) && dice.contains(ms[j].1)
}

proof fn lemma_sequences_from_moves(sv: StateView, ps: Seq<Location>, roll: u8, rest: Seq<u8>)
    requires
        forall|i: int| 0 <= i < ps.len() ==> move_source(#[trigger] ps[i]),
    ensures
        forall|k: int| 0 <= k < sequences_from(sv, ps, roll, rest).len() ==>
            moves_from(#[trigger] sequences_from(sv, ps, roll, rest)[k], rest.push(roll)),
    decreases rest.len() + 1, ps.len(),
{
    if ps.len() > 0 {
        lemma_sequences_from_moves(sv, ps.drop_last(), roll, rest);
        let before = sequences_from(sv, ps.drop_last(), roll, rest);
        let m = (ps.last(), roll);
        let all = rest.push(roll);
        assert(all.contains(roll)) by {
            assert(all[rest.len() as int] == roll);
        }
        if spec_legal_move(sv, ps.last(), roll) {
            let later = spec_legal_sequences(after_single(sv, m), rest);
            lemma_legal_sequences_moves(after_single(sv, m), rest);
            let mapped = later.map_values(|ms: Seq<SingleMove>| ms.push(m));
            let r = before + mapped + seq![seq![m]];
            assert(r == sequences_from(sv, ps, roll, rest));
            assert forall|k: int| 0 <= k < r.len() implies moves_from(#[trigger] r[k], all) by {
                if k < before.len() {
                    assert(r[k] == before[k]);
                } else if k < before.len() + mapped.len() {
                    let q = later[k - before.len()];
                    assert(r[k] == q.push(m));
                    assert(moves_from(q, rest));
                    assert forall|j: int| 0 <= j < q.push(m).len() implies move_source((#[trigger] q.push(m)[j]).0) && all.contains(q.push(m)[j].1) by {
                        if j < q.len() {
                            assert(q.push(m)[j] == q[j]);
                            let t = choose|t: int| 0 <= t < rest.len() && rest[t] == q[j].1;
                            assert(all[t] == rest[t]);
                        }
                    }
                } else {
                    assert(r[k] == seq![m]);
                }
            }
        }
    }
}

proof fn lemma_legal_sequences_moves(sv: StateView, dice: Seq<u8>)
    ensures
        forall|k: int| 0 <= k < spec_legal_sequences(sv, dice).len() ==>
            moves_from(#[trigger] spec_legal_sequences(sv, dice)[k], dice),
    decreases dice.len(), spec_positions(sv).len() + 1,
{
    if dice.len() > 0 {
        assert forall|i: int| 0 <= i < spec_positions(sv).len() implies move_source(#[trigger] spec_positions(sv)[i]) by {
            lemma_positions_are_sources(sv, spec_positions(sv)[i]);
        }
        lemma_sequences_from_moves(sv, spec_positions(sv), dice.last(), dice.drop_last());
        assert(dice.drop_last().push(dice.last()) =~= dice);
        assert(spec_legal_sequences(sv, dice) == sequences_from(sv, spec_positions(sv), dice.last(), dice.drop_last()));
    }
}


/// The number of points a play moves in all.
pub open spec fn pips(ms: Seq<SingleMove>) -> nat
    decreases ms.len(),
{
    if ms.len() == 0 {
        0
    } else {
        pips(ms.drop_last()) + ms.last().1 as nat
    }
}

/// The points of a play added up as `u8` values that wrap around.
pub open spec fn wrapped_pips(ms: Seq<SingleMove>) -> nat {
    pips(ms) % 256
}

/// The largest wrapped pip count among plays (zero for none).
pub open spec fn most_pips(c: Seq<Seq<SingleMove>>) -> nat
    decreases c.len(),
{
    if c.len() == 0 {
        0
    } else {
        let a = most_pips(c.drop_last());
        let b = wrapped_pips(c.last());
        if b >= a { b } else { a }
    }
}

/// The plays considered for the dice of the position: the empty play, then the legal
/// sequences for a double used four times, or for the two dice in both orders.
pub open spec fn candidate_plays(sv: StateView) -> Seq<Seq<SingleMove>> {
    let (x, y) = sv.dice;
    seq![Seq::<SingleMove>::empty()] + if x == y {
        spec_legal_sequences(sv, seq![x, x, x, x])
    } else {
        spec_legal_sequences(sv, seq![x, y]) + spec_legal_sequences(sv, seq![y, x])
    }
}

/// A candidate play that moves as many points as any candidate.
pub open spec fn is_longest(sv: StateView, q: Seq<SingleMove>) -> bool {
    wrapped_pips(q) == most_pips(candidate_plays(sv))
}

/// `p` is `q` with its moves put in increasing order.
pub open spec fn sorted_version(p: Seq<SingleMove>, q: Seq<SingleMove>) -> bool {
    moves_sorted(p) && p.to_multiset() == q.to_multiset()
}

/// The play of a move (empty for a throw).
pub open spec fn play_of(m: Move) -> Seq<SingleMove> {
    match m {
        Ok(v) => v@,
        Err(_) => Seq::empty(),
    }
}

/// The throws of a pair of dice, highest die first: (1,1), (2,1), (2,2), (3,1), ...
pub open spec fn rolls_upto(x: nat) -> Seq<Roll>
    decreases x,
{
    if x == 0 {
        seq![]
    } else {
        rolls_upto((x - 1) as nat) + Seq::new(x, |j: int| (x as u8, (j + 1) as u8))
    }
}

/// The 21 distinct throws of two dice.
pub open spec fn spec_rolls() -> Seq<Roll> {
    rolls_upto(6)
}

/// The dice of the position can be used by `legal_moves`.
pub open spec fn dice_ok(sv: StateView) -> bool {
    die_in_range(sv.dice.0) && die_in_range(sv.dice.1)
}

/// The points of a play added up as `u8` values that wrap around.
fn play_pips(ms: &Vec<SingleMove>) -> (r: u8)
    ensures
        r as nat == wrapped_pips(ms@),
{
    let mut total: u8 = 0;
    let mut i: usize = 0;
    while i < ms.len()
        invariant
            i <= ms.len(),
            total as nat == pips(ms@.subrange(0, i as int)) % 256,
        decreases ms.len() - i,
    {
        assert(ms@.subrange(0, i + 1).drop_last() =~= ms@.subrange(0, i as int));
        total = total.wrapping_add(ms[i].1);
        i += 1;
    }
    assert(ms@.subrange(0, ms.len() as int) =~= ms@);
    total
}

proof fn lemma_play_in_range(player: bool, p: Seq<SingleMove>, q: Seq<SingleMove>, dice: Seq<u8>)
    requires
        moves_from(q, dice),
        dice_in_range(dice),
        p.to_multiset() == q.to_multiset(),
    ensures
        moves_in_range(player, p),
{
    broadcast use vstd::seq_lib::group_to_multiset_ensures;
    assert forall|i: int| 0 <= i < p.len() implies move_in_range(player, #[trigger] p[i].0, p[i].1) by {
        assert(p.contains(p[i]));
        assert(q.to_multiset().count(p[i]) > 0);
        assert(q.contains(p[i]));
        let j = choose|j: int| 0 <= j < q.len() && q[j] == p[i];
        assert(moves_from(q, dice));
        assert(q[j].0.in_table() && dice.contains(q[j].1));
        let t = choose|t: int| 0 <= t < dice.len() && dice[t] == q[j].1;
        assert(die_in_range(dice[t]));
        lemma_die_in_range_moves(player, p[i].0, p[i].1);
    }
}

proof fn lemma_candidates_in_range(sv: StateView)
    requires
        dice_ok(sv),
    ensures
        forall|k: int| 0 <= k < candidate_plays(sv).len() ==> moves_from(#[trigger] candidate_plays(sv)[k], seq![sv.dice.0, sv.dice.1]),
{
    let (x, y) = sv.dice;
    let d2 = seq![x, y];
    let c = candidate_plays(sv);
    assert(d2.contains(x)) by { assert(d2[0] == x); }
    assert(d2.contains(y)) by { assert(d2[1] == y); }
    if x == y {
        let d4 = seq![x, x, x, x];
        lemma_legal_sequences_moves(sv, d4);
        let a = spec_legal_sequences(sv, d4);
        assert forall|k: int| 0 <= k < c.len() implies moves_from(#[trigger] c[k], d2) by {
            if k > 0 {
                assert(c[k] == a[k - 1]);
                assert(moves_from(a[k - 1], d4));
                assert forall|j: int| 0 <= j < c[k].len() implies (#[trigger] c[k][j]).0.in_table() && d2.contains(c[k][j].1) by {
                    let t = choose|t: int| 0 <= t < d4.len() && d4[t] == c[k][j].1;
                }
            }
        }
    } else {
        let d2r = seq![y, x];
        lemma_legal_sequences_moves(sv, d2);
        lemma_legal_sequences_moves(sv, d2r);
        let a = spec_legal_sequences(sv, d2);
        let b = spec_legal_sequences(sv, d2r);
        assert forall|k: int| 0 <= k < c.len() implies moves_from(#[trigger] c[k], d2) by {
            if k > 0 && k <= a.len() {
                assert(c[k] == a[k - 1]);
            } else if k > a.len() {
                assert(c[k] == b[k - 1 - a.len()]);
                assert(moves_from(b[k - 1 - a.len()], d2r));
                assert forall|j: int| 0 <= j < c[k].len() implies (#[trigger] c[k][j]).0.in_table() && d2.contains(c[k][j].1) by {
                    let t = choose|t: int| 0 <= t < d2r.len() && d2r[t] == c[k][j].1;
                }
            }
        }
    }
}

/// `p` is the sorted version of one of the first `n` plays of `c` that move `most` points.
pub open spec fn sorted_from(c: Seq<Seq<SingleMove>>, most: nat, n: int, p: Seq<SingleMove>) -> bool {
    exists|k: int| 0 <= k < n && wrapped_pips(c[k]) == most && sorted_version(p, c[k])
}

/// The sorted version of `q` is among `ps`.
pub open spec fn listed(ps: Seq<Seq<SingleMove>>, q: Seq<SingleMove>) -> bool {
    exists|j: int| 0 <= j < ps.len() && sorted_version(ps[j], q)
}

/// The plays of `mss` that move `most` points, each with its moves sorted, once each
/// and in increasing order.
fn longest_sorted_plays(mss: &Vec<Vec<SingleMove>>, most: u8) -> (plays: Vec<Vec<SingleMove>>)
    ensures
        plays_increasing(views(plays@)),
        forall|j: int| 0 <= j < plays@.len() ==> sorted_from(views(mss@), most as nat, mss@.len() as int, #[trigger] views(plays@)[j]),
        forall|k: int| 0 <= k < mss@.len() && wrapped_pips(#[trigger] views(mss@)[k]) == most ==> listed(views(plays@), views(mss@)[k]),
{
    let ghost c = views(mss@);
    let mut plays: Vec<Vec<SingleMove>> = Vec::new();
    let mut i: usize = 0;
    while i < mss.len()
        invariant
            c == views(mss@),
            i <= mss.len(),
            plays_increasing(views(plays@)),
            forall|j: int| 0 <= j < plays@.len() ==> sorted_from(c, most as nat, i as int, #[trigger] views(plays@)[j]),
            forall|k: int| 0 <= k < i && wrapped_pips(#[trigger] c[k]) == most ==> listed(views(plays@), c[k]),
        decreases mss.len() - i,
    {
        let p = play_pips(&mss[i]);
        assert(c[i as int] == mss@[i as int]@);
        let ghost old_views = views(plays@);
        if p == most {
            let sorted = sort_moves(&mss[i]);
            let ghost xv = sorted@;
            insert_play(&mut plays, sorted);
            proof {
                let nv = views(plays@);
                assert forall|j: int| 0 <= j < nv.len() implies sorted_from(c, most as nat, i + 1, #[trigger] nv[j]) by {
                    assert(nv.contains(nv[j]));
                    if nv[j] == xv {
                        assert(0 <= i < i + 1 && wrapped_pips(c[i as int]) == most && sorted_version(nv[j], c[i as int]));
                    } else {
                        let t = choose|t: int| 0 <= t < old_views.len() && old_views[t] == nv[j];
                        assert(sorted_from(c, most as nat, i as int, old_views[t]));
                        let k = choose|k: int| 0 <= k < i && wrapped_pips(c[k]) == most && sorted_version(old_views[t], c[k]);
                        assert(0 <= k < i + 1 && wrapped_pips(c[k]) == most && sorted_version(nv[j], c[k]));
                    }
                }
                assert forall|k: int| 0 <= k < i + 1 && wrapped_pips(#[trigger] c[k]) == most implies listed(nv, c[k]) by {
                    if k == i {
                        assert(nv.contains(xv));
                        let t = choose|t: int| 0 <= t < nv.len() && nv[t] == xv;
                        assert(sorted_version(nv[t], c[k]));
                    } else {
                        assert(listed(old_views, c[k]));
                        let j0 = choose|j: int| 0 <= j < old_views.len() && sorted_version(old_views[j], c[k]);
                        assert(old_views.contains(old_views[j0]));
                        assert(nv.contains(old_views[j0]));
                        let t = choose|t: int| 0 <= t < nv.len() && nv[t] == old_views[j0];
                        assert(sorted_version(nv[t], c[k]));
                    }
                }
            }
        } else {
            proof {
                let nv = views(plays@);
                assert forall|j: int| 0 <= j < nv.len() implies sorted_from(c, most as nat, i + 1, #[trigger] nv[j]) by {
                    assert(sorted_from(c, most as nat, i as int, nv[j]));
                    let k = choose|k: int| 0 <= k < i && wrapped_pips(c[k]) == most && sorted_version(nv[j], c[k]);
                    assert(0 <= k < i + 1 && wrapped_pips(c[k]) == most && sorted_version(nv[j], c[k]));
                }
            }
        }
        i += 1;
    }
    plays
}

/// The 21 throws of two dice, highest die first.
fn roll_moves() -> (v: Vec<Move>)
    ensures
        v@ == spec_rolls().map_values(|p: Roll| Err::<Vec<SingleMove>, Roll>(p)),
{
    let mut v: Vec<Move> = Vec::new();
    let mut x: u8 = 1;
    while x < 7
        invariant
            1 <= x <= 7,
            v@ == rolls_upto((x - 1) as nat).map_values(|p: Roll| Err::<Vec<SingleMove>, Roll>(p)),
        decreases 7 - x,
    {
        let ghost before = v@;
        let mut y: u8 = 1;
        while y < x + 1
            invariant
                1 <= x < 7,
                1 <= y <= x + 1,
                v@ == before + Seq::new((y - 1) as nat, |j: int| (x as u8, (j + 1) as u8)).map_values(|p: Roll| Err::<Vec<SingleMove>, Roll>(p)),
            decreases x + 1 - y,
        {
            v.push(Err((x, y)));
            proof {
                assert(Seq::new(y as nat, |j: int| (x as u8, (j + 1) as u8)).map_values(|p: Roll| Err::<Vec<SingleMove>, Roll>(p))
                    =~= Seq::new((y - 1) as nat, |j: int| (x as u8, (j + 1) as u8)).map_values(|p: Roll| Err::<Vec<SingleMove>, Roll>(p)).push(Err((x, y))));
            }
            y += 1;
        }
        proof {
            assert(rolls_upto(x as nat) == rolls_upto((x - 1) as nat) + Seq::new(x as nat, |j: int| (x as u8, (j + 1) as u8)));
            assert(rolls_upto(x as nat).map_values(|p: Roll| Err::<Vec<SingleMove>, Roll>(p)) =~= before + Seq::new(x as nat, |j: int| (x as u8, (j + 1) as u8)).map_values(|p: Roll| Err::<Vec<SingleMove>, Roll>(p)));
        }
        x += 1;
    }
    v
}

/// The plays of a position, as `legal_moves` lists them once the dice are thrown: all
/// of them plays (`Ok`), in strictly increasing order, each the sorted version of a
/// candidate play that moves the most points, and every such candidate listed.
pub open spec fn lists_longest_plays(sv: StateView, r: Seq<Move>) -> bool {
    let c = candidate_plays(sv);
    &&& forall|i: int| 0 <= i < r.len() ==> r[i] is Ok
    &&& plays_increasing(r.map_values(|m: Move| play_of(m)))
    &&& forall|i: int| 0 <= i < r.len() ==> sorts_longest(sv, play_of(#[trigger] r[i]))
    &&& forall|k: int| 0 <= k < c.len() && is_longest(sv, #[trigger] c[k])
        ==> listed(r.map_values(|m: Move| play_of(m)), c[k])
}

/// `p` is the sorted version of a candidate play that moves the most points.
pub open spec fn sorts_longest(sv: StateView, p: Seq<SingleMove>) -> bool {
    exists|k: int| 0 <= k < candidate_plays(sv).len()
        && is_longest(sv, candidate_plays(sv)[k]) && sorted_version(p, candidate_plays(sv)[k])
}

/// The candidate plays of a position whose dice have been thrown.
fn candidate_moves(s: &State) -> (mss: Vec<Vec<SingleMove>>)
    requires
        s@.wf(),
        dice_ok(s@),
    ensures
        views(mss@) == candidate_plays(s@),
{
    let (x, y) = s.dice;
    let mut mss: Vec<Vec<SingleMove>> = Vec::new();
    let empty: Vec<SingleMove> = Vec::new();
    mss.push(empty);
    if x == y {
        let dice: Vec<u8> = vec![x, x, x, x];
        assert(dice@ =~= seq![x, x, x, x]);
        let mut found = legal_sequences(s, dice.as_slice());
        mss.append(&mut found);
    } else {
        let dice: Vec<u8> = vec![x, y];
        assert(dice@ =~= seq![x, y]);
        let mut found = legal_sequences(s, dice.as_slice());
        mss.append(&mut found);
        let dice_rev: Vec<u8> = vec![y, x];
        assert(dice_rev@ =~= seq![y, x]);
        let mut found_rev = legal_sequences(s, dice_rev.as_slice());
        mss.append(&mut found_rev);
    }
    assert(mss@[0]@ =~= Seq::<SingleMove>::empty());
    assert(views(mss@) =~= candidate_plays(s@));
    mss
}

/// The most points any of the plays moves (as wrapping `u8` sums).
fn most_pips_of(mss: &Vec<Vec<SingleMove>>) -> (m: u8)
    ensures
        m as nat == most_pips(views(mss@)),
{
    let ghost c = views(mss@);
    let mut max_moves: u8 = 0;
    let mut i: usize = 0;
    assert(c.subrange(0, 0) =~= Seq::<Seq<SingleMove>>::empty());
    while i < mss.len()
        invariant
            views(mss@) == c,
            i <= mss.len(),
            max_moves as nat == most_pips(c.subrange(0, i as int)),
        decreases mss.len() - i,
    {
        let p = play_pips(&mss[i]);
        assert(c.subrange(0, i + 1).drop_last() =~= c.subrange(0, i as int));
        assert(c[i as int] == mss@[i as int]@);
        if p > max_moves {
            max_moves = p;
        }
        i += 1;
    }
    assert(c.subrange(0, mss.len() as int) =~= c);
    max_moves
}

/// The plays of a position whose dice have been thrown.
fn play_moves(s: &State) -> (r: Vec<Move>)
    requires
        s@.wf(),
        dice_ok(s@),
        !s@.roll_turn,
    ensures
        lists_longest_plays(s@, r@),
        forall|i: int| 0 <= i < r@.len() ==> can_apply(s@, #[trigger] r@[i]),
{
    let ghost c = candidate_plays(s@);
    let ghost d2 = seq![s@.dice.0, s@.dice.1];
    proof {
        lemma_candidates_in_range(s@);
        assert(dice_in_range(d2)) by {
            assert(d2[0] == s@.dice.0 && d2[1] == s@.dice.1);
        }
    }
    let mss = candidate_moves(s);
    let max_moves = most_pips_of(&mss);
    let plays = longest_sorted_plays(&mss, max_moves);
    proof {
        assert forall|t: int| 0 <= t < plays@.len() implies sorts_longest(s@, #[trigger] plays@[t]@) by {
            assert(views(plays@)[t] == plays@[t]@);
            assert(sorted_from(c, max_moves as nat, c.len() as int, views(plays@)[t]));
            let k = choose|k: int| 0 <= k < c.len() && wrapped_pips(c[k]) == max_moves as nat && sorted_version(views(plays@)[t], c[k]);
            assert(0 <= k < c.len() && is_longest(s@, c[k]) && sorted_version(plays@[t]@, c[k]));
        }
    }
    let mut v: Vec<Move> = Vec::new();
    let mut j: usize = 0;
    while j < plays.len()
        invariant
            j <= plays.len(),
            c == candidate_plays(s@),
            dice_in_range(d2),
            forall|k: int| 0 <= k < c.len() ==> moves_from(#[trigger] c[k], d2),
            forall|t: int| 0 <= t < plays@.len() ==> sorts_longest(s@, #[trigger] plays@[t]@),
            v@.len() == j,
            forall|t: int| 0 <= t < j ==> v@[t] is Ok,
            forall|t: int| 0 <= t < j ==> play_of(#[trigger] v@[t]) == plays@[t]@,
            forall|t: int| 0 <= t < j ==> can_apply(s@, #[trigger] v@[t]),
        decreases plays.len() - j,
    {
        let w = copy_moves(&plays[j]);
        proof {
            assert(sorts_longest(s@, plays@[j as int]@));
            let k = choose|k: int| 0 <= k < c.len() && is_longest(s@, c[k]) && sorted_version(plays@[j as int]@, c[k]);
            lemma_play_in_range(s@.player, w@, c[k], d2);
        }
        v.push(Ok(w));
        j += 1;
    }
    proof {
        let ps = v@.map_values(|m: Move| play_of(m));
        assert(ps =~= views(plays@));
        assert forall|t: int| 0 <= t < v@.len() implies sorts_longest(s@, play_of(#[trigger] v@[t])) by {
            assert(play_of(v@[t]) == plays@[t]@);
        }
    }
    v
}

impl Backgammon {
    /// The legal moves of a position. When the dice are to be thrown these are the 21
    /// throws, highest die first. Otherwise they are the plays that move the most
    /// points among the empty play and the legal sequences for the dice (a double
    /// played four times, other dice in either order), each with its moves in
    /// increasing order, listed once each in increasing order.
    pub fn legal_moves(s: &State) -> (r: Vec<Move>)
        requires
            s@.wf(),
            !s@.roll_turn ==> dice_ok(s@),
        ensures
            s@.roll_turn ==> r@ == spec_rolls().map_values(|p: Roll| Err::<Vec<SingleMove>, Roll>(p)),
            !s@.roll_turn ==> lists_longest_plays(s@, r@),
            forall|i: int| 0 <= i < r@.len() ==> can_apply(s@, #[trigger] r@[i]),
    {
        if s.roll_turn {
            roll_moves()
        } else {
            play_moves(s)
        }
    }
}


/// White's checkers on index `n` at the start: 2 on 1, 5 on 12, 3 on 17, 5 on 19.
pub open spec fn white_start(n: int) -> u8 {
    if n == 1 { 2 } else if n == 12 { 5 } else if n == 17 { 3 } else if n == 19 { 5 } else { 0 }
}

/// Black's checkers on index `n` at the start: 5 on 6, 3 on 8, 5 on 13, 2 on 24.
pub open spec fn black_start(n: int) -> u8 {
    if n == 6 { 5 } else if n == 8 { 3 } else if n == 13 { 5 } else if n == 24 { 2 } else { 0 }
}

/// The starting position: white to throw the dice, no dice yet.
pub open spec fn spec_new() -> StateView {
    StateView {
        player: true,
        roll_turn: true,
        counts: Seq::new(26, |n: int| (StackHeight(white_start(n)), StackHeight(black_start(n)))),
        dice: (0, 0),
    }
}

/// The player to act: the dice (`None`) when they are to be thrown, else the player.
pub open spec fn spec_current_player(sv: StateView) -> Player {
    if sv.roll_turn { None } else { Some(sv.player) }
}

/// The players: the dice, black and white.
pub open spec fn spec_players() -> Seq<Player> {
    seq![None, Some(false), Some(true)]
}

/// The game is over: all checkers of one player are home.
pub open spec fn spec_finished(sv: StateView) -> bool {
    sv.height(Location::Home, false) == CHECKERS || sv.height(Location::Home, true) == CHECKERS
}

/// The points the winner `w` scores: 3 (backgammon) when the loser has a checker
/// outside its home board and none home, 2 (gammon) when all its checkers are on its
/// home board but none home, 1 otherwise.
pub open spec fn spec_multiplier(sv: StateView, w: bool) -> Score {
    let homeboard = spec_all_homeboard(sv, !w);
    let borne_off = sv.height(Location::Home, !w) > 0;
    if !homeboard && !borne_off {
        3
    } else if homeboard && !borne_off {
        2
    } else {
        1
    }
}

/// The scores of a finished game, by player in the order of `players`: the player who
/// just moved wins the multiplier, the other loses it, the dice score zero.
pub open spec fn spec_scores(sv: StateView) -> Option<Seq<(Player, Score)>> {
    if spec_finished(sv) {
        let w = !sv.player;
        let m = spec_multiplier(sv, w);
        Some(seq![(None, 0), (Some(false), if w { (-m) as Score } else { m }), (Some(true), if w { m } else { (-m) as Score })])
    } else {
        None
    }
}

impl Backgammon {
    /// The starting position.
    pub fn new() -> (s: State)
        ensures
            s@ == spec_new(),
            s@.wf(),
    {
        let mut v: Vec<Count> = Vec::new();
        let mut n: u8 = 0;
        while n < 26
            invariant
                n <= 26,
                v@ == Seq::new(n as nat, |i: int| (StackHeight(white_start(i)), StackHeight(black_start(i)))),
            decreases 26 - n,
        {
            let white: u8 = match n {
                1 => 2,
                12 => 5,
                17 => 3,
                19 => 5,
                _ => 0,
            };
            let black: u8 = match n {
                6 => 5,
                8 => 3,
                13 => 5,
                24 => 2,
                _ => 0,
            };
            v.push((StackHeight(white), StackHeight(black)));
            assert(v@ =~= Seq::new((n + 1) as nat, |i: int| (StackHeight(white_start(i)), StackHeight(black_start(i)))));
            n += 1;
        }
        let s = State { player: true, roll_turn: true, counts: v, dice: (0, 0) };
        assert(s@ =~= spec_new());
        s
    }

    /// The players: the dice, black and white.
    pub fn players() -> (v: Vec<Player>)
        ensures
            v@ == spec_players(),
    {
        let v: Vec<Player> = vec![None, Some(false), Some(true)];
        assert(v@ =~= spec_players());
        v
    }

    /// The player to act.
    pub fn current_player(s: &State) -> (p: Player)
        ensures
            p == spec_current_player(s@),
    {
        if s.roll_turn { None } else { Some(s.player) }
    }

    /// Whether one player has borne off all its checkers.
    pub fn finished(s: &State) -> (b: bool)
        requires
            s@.wf(),
        ensures
            b == spec_finished(s@),
    {
        all_loc(Location::Home, false, s) || all_loc(Location::Home, true, s)
    }

    /// The scores when the game is over, `None` before.
    pub fn scores(s: &State) -> (r: Option<Vec<(Player, Score)>>)
        requires
            s@.wf(),
        ensures
            r matches Some(v) ==> spec_scores(s@) == Some(v@),
            r is None <==> spec_scores(s@) is None,
    {
        if Self::finished(s) {
            let p = !s.player;
            let multiplier: Score = match (all_homeboard(!p, s), any_loc(Location::Home, !p, s)) {
                (false, false) => 3,
                (true, false) => 2,
                _ => 1,
            };
            let mut m: Vec<(Player, Score)> = Vec::new();
            m.push((None, 0));
            m.push((Some(false), if p { -multiplier } else { multiplier }));
            m.push((Some(true), if p { multiplier } else { -multiplier }));
            assert(m@ =~= spec_scores(s@).unwrap());
            Some(m)
        } else {
            None
        }
    }
}


/// Every throw of `rolls_upto(x)` has dice between 1 and `x`, the highest first.
pub proof fn lemma_rolls_in_range(x: nat)
    requires
        x <= 6,
    ensures
        forall|i: int| 0 <= i < rolls_upto(x).len() ==> 1 <= (#[trigger] rolls_upto(x)[i]).1 <= rolls_upto(x)[i].0 <= x,
    decreases x,
{
    if x > 0 {
        lemma_rolls_in_range((x - 1) as nat);
        let prev = rolls_upto((x - 1) as nat);
        let new = Seq::new(x, |j: int| (x as u8, (j + 1) as u8));
        assert forall|i: int| 0 <= i < rolls_upto(x).len() implies 1 <= (#[trigger] rolls_upto(x)[i]).1 <= rolls_upto(x)[i].0 <= x by {
            if i < prev.len() {
                assert(rolls_upto(x)[i] == prev[i]);
            } else {
                assert(rolls_upto(x)[i] == new[i - prev.len()]);
            }
        }
    }
}

/// Two moves that are the same play, or the same throw.
pub open spec fn same_play(a: Move, b: Move) -> bool {
    match (a, b) {
        (Ok(x), Ok(y)) => x@ == y@,
        (Err(p), Err(q)) => p == q,
        _ => false,
    }
}

impl GameState for State {
    type Move = Move;

    type Player = Player;

    open spec fn valid(&self) -> bool {
        self@.wf() && (!self@.roll_turn ==> dice_ok(self@))
    }

    open spec fn applicable(&self, m: Move) -> bool {
        can_apply(self@, m) && (m matches Err(p) ==> die_in_range(p.0) && die_in_range(p.1))
    }

    open spec fn next(&self, m: Move) -> StateView {
        spec_apply(self@, m)
    }

    open spec fn over(&self) -> bool {
        spec_finished(self@)
    }

    open spec fn to_move(&self) -> Player {
        spec_current_player(self@)
    }

    open spec fn player_list() -> Seq<Player> {
        spec_players()
    }

    open spec fn same_move(a: Move, b: Move) -> bool {
        same_play(a, b)
    }

    open spec fn final_scores(&self) -> Seq<(Player, Score)> {
        match spec_scores(self@) {
            Some(v) => v,
            None => Seq::empty(),
        }
    }

    open spec fn start() -> StateView {
        spec_new()
    }

    open spec fn lists_legal(&self, ms: Seq<Move>) -> bool {
        &&& self@.roll_turn ==> ms == spec_rolls().map_values(|p: Roll| Err::<Vec<SingleMove>, Roll>(p))
        &&& !self@.roll_turn ==> lists_longest_plays(self@, ms)
    }

    proof fn lemma_view_determines(a: &Self, b: &Self, m: Move) {
    }

    proof fn lemma_same_move(s: &Self, a: Move, b: Move) {
    }

    proof fn lemma_legal_list_unique(s: &Self, a: Seq<Move>, b: Seq<Move>) {
        if !s@.roll_turn {
            lemma_longest_plays_unique(s@, a, b);
            assert forall|i: int| 0 <= i < a.len() implies Self::same_move(#[trigger] a[i], b[i]) by {
                assert(a.map_values(|m: Move| play_of(m))[i] == b.map_values(|m: Move| play_of(m))[i]);
            }
        }
    }

    fn new() -> (s: Self) {
        Backgammon::new()
    }

    fn apply(&mut self, m: Move) {
        Backgammon::apply(self, m)
    }

    fn legal_moves(&self) -> (ms: Vec<Move>) {
        proof {
            lemma_rolls_in_range(6);
        }
        let ms = Backgammon::legal_moves(self);
        proof {
            if self@.roll_turn {
                assert forall|i: int| 0 <= i < ms@.len() implies self.applicable(#[trigger] ms@[i]) by {
                    assert(ms@[i] == Err::<Vec<SingleMove>, Roll>(spec_rolls()[i]));
                }
            }
        }
        ms
    }

    fn players() -> (ps: Vec<Player>) {
        Backgammon::players()
    }

    fn current_player(&self) -> (p: Player) {
        let p = Backgammon::current_player(self);
        proof {
            if self@.roll_turn {
                assert(spec_players()[0] == p);
            } else if self@.player {
                assert(spec_players()[2] == p);
            } else {
                assert(spec_players()[1] == p);
            }
        }
        p
    }

    fn scores(&self) -> (r: Option<Vec<(Player, Score)>>) {
        let r = Backgammon::scores(self);
        proof {
            if r is Some {
                assert(super::board_players(r->Some_0@) =~= spec_players());
            }
        }
        r
    }

    fn finished(&self) -> (b: bool) {
        Backgammon::finished(self)
    }

    fn copy_state(&self) -> (r: Self) {
        self.copy()
    }

    fn same_state(&self, other: &Self) -> (b: bool) {
        if self.player != other.player || self.roll_turn != other.roll_turn || self.dice.0 != other.dice.0
            || self.dice.1 != other.dice.1 || self.counts.len() != other.counts.len() {
            return false;
        }
        let mut i: usize = 0;
        while i < self.counts.len()
            invariant
                i <= self.counts.len(),
                self.counts.len() == other.counts.len(),
                self.counts@.subrange(0, i as int) == other.counts@.subrange(0, i as int),
            decreases self.counts.len() - i,
        {
            let a = self.counts[i];
            let b = other.counts[i];
            if a.0.0 != b.0.0 || a.1.0 != b.1.0 {
                assert(self.counts@[i as int] != other.counts@[i as int]);
                return false;
            }
            assert(self.counts@.subrange(0, i + 1) =~= self.counts@.subrange(0, i as int).push(a));
            assert(other.counts@.subrange(0, i + 1) =~= other.counts@.subrange(0, i as int).push(b));
            i += 1;
        }
        assert(self.counts@ =~= self.counts@.subrange(0, i as int));
        assert(other.counts@ =~= other.counts@.subrange(0, i as int));
        assert(self@ =~= other@);
        true
    }

    fn same_player(a: &Player, b: &Player) -> (r: bool) {
        match (a, b) {
            (None, None) => true,
            (Some(x), Some(y)) => *x == *y,
            _ => false,
        }
    }

    fn clone_move(m: &Move) -> (r: Move) {
        match m {
            Ok(v) => Ok(copy_moves(v)),
            Err(p) => Err(*p),
        }
    }
}


/// The number of checkers of player `p` in a table of counts.
pub open spec fn checkers(counts: Seq<Count>, p: bool) -> nat
    decreases counts.len(),
{
    if counts.len() == 0 {
        0
    } else {
        checkers(counts.drop_last(), p) + own(counts.last(), p) as nat
    }
}

proof fn lemma_checkers_update(c: Seq<Count>, i: int, x: Count, p: bool)
    requires
        0 <= i < c.len(),
    ensures
        checkers(c.update(i, x), p) == checkers(c, p) - own(c[i], p) + own(x, p),
    decreases c.len(),
{
    let u = c.update(i, x);
    if i == c.len() - 1 {
        assert(u.drop_last() =~= c.drop_last());
    } else {
        lemma_checkers_update(c.drop_last(), i, x, p);
        assert(u.drop_last() =~= c.drop_last().update(i, x));
    }
}

#[verifier::rlimit(30)]
proof fn lemma_step_conserves(c: Seq<Count>, player: bool, m: SingleMove, p: bool)
    requires
        c.len() == LOCATIONS,
        move_in_range(player, m.0, m.1),
    ensures
        step(c, player, m).len() == LOCATIONS,
        checkers(step(c, player, m), p) % 256 == checkers(c, p) % 256,
{
    reveal(step);
    let (l, n) = m;
    let from = l.idx() as int;
    let c1 = c.update(from, remove_checker(c[from], player));
    let to = landing(player, l, n).idx() as int;
    let hit = !goes_home(player, l, n) && own(c1[to], !player) > 0;
    let c2 = c1.update(to, add_checker(c1[to], player));
    lemma_checkers_update(c, from, remove_checker(c[from], player), p);
    lemma_checkers_update(c1, to, add_checker(c1[to], player), p);
    if hit {
        let c3 = c2.update(to, remove_checker(c2[to], !player));
        lemma_checkers_update(c2, to, remove_checker(c2[to], !player), p);
        lemma_checkers_update(c3, 0, add_checker(c3[0], !player), p);
    }
}

proof fn lemma_steps_conserve(c: Seq<Count>, player: bool, ms: Seq<SingleMove>, p: bool)
    requires
        c.len() == LOCATIONS,
        moves_in_range(player, ms),
    ensures
        steps(c, player, ms).len() == LOCATIONS,
        checkers(steps(c, player, ms), p) % 256 == checkers(c, p) % 256,
    decreases ms.len(),
{
    if ms.len() > 0 {
        assert(moves_in_range(player, ms.drop_last())) by {
            assert forall|i: int| 0 <= i < ms.drop_last().len() implies move_in_range(player, #[trigger] ms.drop_last()[i].0, ms.drop_last()[i].1) by {
                assert(ms.drop_last()[i] == ms[i]);
            }
        }
        lemma_steps_conserve(c, player, ms.drop_last(), p);
        assert(move_in_range(player, ms[ms.len() - 1].0, ms[ms.len() - 1].1));
        lemma_step_conserves(steps(c, player, ms.drop_last()), player, ms.last(), p);
    }
}

/// A move never creates or destroys checkers: each player keeps as many as it had
/// (counted modulo 256, the range of a stack height).
pub proof fn lemma_apply_keeps_checkers(sv: StateView, m: Move, p: bool)
    requires
        sv.wf(),
        can_apply(sv, m),
    ensures
        spec_apply(sv, m).wf(),
        checkers(spec_apply(sv, m).counts, p) % 256 == checkers(sv.counts, p) % 256,
{
    if let Ok(v) = m {
        lemma_steps_conserve(sv.counts, sv.player, v@, p);
    }
}

/// The game starts with fifteen checkers for each player.
pub proof fn lemma_new_has_all_checkers(p: bool)
    ensures
        checkers(spec_new().counts, p) == CHECKERS,
{
    lemma_checkers_prefix(spec_new().counts, p);
}

proof fn lemma_checkers_prefix(c: Seq<Count>, p: bool)
    requires
        c == spec_new().counts,
    ensures
        checkers(c, p) == CHECKERS,
{
    assert forall|k: int| 0 <= k <= 26 implies #[trigger] checkers(c.subrange(0, k), p) == prefix_start(p, k) by {
        lemma_checkers_prefix_k(c, p, k);
    }
    assert(c.subrange(0, 26) =~= c);
    reveal_with_fuel(prefix_start, 27);
}

/// The checkers of player `p` on the first `k` indices of the starting position.
spec fn prefix_start(p: bool, k: int) -> nat
    decreases k,
{
    if k <= 0 {
        0
    } else {
        prefix_start(p, k - 1) + if p { white_start(k - 1) as nat } else { black_start(k - 1) as nat }
    }
}

proof fn lemma_checkers_prefix_k(c: Seq<Count>, p: bool, k: int)
    requires
        c == spec_new().counts,
        0 <= k <= 26,
    ensures
        checkers(c.subrange(0, k), p) == prefix_start(p, k),
    decreases k,
{
    if k > 0 {
        lemma_checkers_prefix_k(c, p, k - 1);
        assert(c.subrange(0, k).drop_last() =~= c.subrange(0, k - 1));
    }
}


/// A finished game is zero-sum: the dice score nothing, and the winner (the player who
/// just moved) wins 1, 2 or 3 points that the loser loses.
pub proof fn lemma_scores_zero_sum(sv: StateView)
    requires
        spec_finished(sv),
    ensures
        spec_scores(sv) matches Some(b) && b.len() == 3 && b[0].1 == 0 && b[1].1 + b[2].1 == 0
            && ({
                let w = if sv.player { b[1].1 } else { b[2].1 };
                1 <= w <= 3
            }),
{
}

/// The turns alternate: a throw lets the player who threw move, and a play hands the
/// dice to the other player.
pub proof fn lemma_turn_order(sv: StateView, m: Move)
    ensures
        m is Err ==> spec_current_player(spec_apply(sv, m)) == Some(sv.player),
        m is Ok ==> spec_current_player(spec_apply(sv, m)) == None::<bool>,
        m is Ok ==> spec_apply(sv, m).player == !sv.player,
{
}

/// Plays listed in increasing order are all different.
pub proof fn lemma_increasing_plays_distinct(ps: Seq<Seq<SingleMove>>)
    requires
        plays_increasing(ps),
    ensures
        forall|i: int, j: int| 0 <= i < j < ps.len() ==> ps[i] != ps[j],
{
    assert forall|i: int, j: int| 0 <= i < j < ps.len() implies ps[i] != ps[j] by {
        lemma_lex_irreflexive(ps[i]);
    }
}


/// A play has one sorted version: two sorted plays with the same single moves are equal.
pub proof fn lemma_sorted_version_unique(a: Seq<SingleMove>, b: Seq<SingleMove>)
    requires
        moves_sorted(a),
        moves_sorted(b),
        a.to_multiset() == b.to_multiset(),
    ensures
        a == b,
    decreases a.len(),
{
    broadcast use vstd::seq_lib::group_to_multiset_ensures;
    assert(a.len() == a.to_multiset().len());
    assert(b.len() == b.to_multiset().len());
    if a.len() == 0 {
        assert(a =~= b);
    } else {
        assert(a.contains(a[0]));
        assert(b.to_multiset().count(a[0]) > 0);
        assert(b.contains(a[0]));
        let j = choose|j: int| 0 <= j < b.len() && b[j] == a[0];
        assert(b.contains(b[0]));
        assert(a.to_multiset().count(b[0]) > 0);
        assert(a.contains(b[0]));
        let k = choose|k: int| 0 <= k < a.len() && a[k] == b[0];
        assert(move_key(b[0]) <= move_key(b[j]));
        assert(move_key(a[0]) <= move_key(a[k]));
        lemma_move_key_injective(a[0], b[0]);
        assert(a.remove(0) =~= a.drop_first());
        assert(b.remove(0) =~= b.drop_first());
        assert(a.drop_first().to_multiset() == a.to_multiset().remove(a[0]));
        assert(b.drop_first().to_multiset() == b.to_multiset().remove(b[0]));
        assert(moves_sorted(a.drop_first())) by {
            assert forall|x: int, y: int| 0 <= x < y < a.drop_first().len() implies move_key(a.drop_first()[x]) <= move_key(a.drop_first()[y]) by {
                assert(a.drop_first()[x] == a[x + 1]);
                assert(a.drop_first()[y] == a[y + 1]);
            }
        }
        assert(moves_sorted(b.drop_first())) by {
            assert forall|x: int, y: int| 0 <= x < y < b.drop_first().len() implies move_key(b.drop_first()[x]) <= move_key(b.drop_first()[y]) by {
                assert(b.drop_first()[x] == b[x + 1]);
                assert(b.drop_first()[y] == b[y + 1]);
            }
        }
        lemma_sorted_version_unique(a.drop_first(), b.drop_first());
        assert(a =~= seq![a[0]] + a.drop_first());
        assert(b =~= seq![b[0]] + b.drop_first());
    }
}

/// Two lists of plays, each in strictly increasing order, that hold the same plays are
/// the same list.
pub proof fn lemma_increasing_same_plays(pa: Seq<Seq<SingleMove>>, pb: Seq<Seq<SingleMove>>)
    requires
        plays_increasing(pa),
        plays_increasing(pb),
        forall|i: int| 0 <= i < pa.len() ==> pb.contains(#[trigger] pa[i]),
        forall|j: int| 0 <= j < pb.len() ==> pa.contains(#[trigger] pb[j]),
    ensures
        pa == pb,
    decreases pa.len(),
{
    if pa.len() == 0 {
        if pb.len() > 0 {
            assert(pa.contains(pb[0]));
        }
        assert(pa =~= pb);
    } else {
        assert(pb.contains(pa[0]));
        let j = choose|j: int| 0 <= j < pb.len() && pb[j] == pa[0];
        assert(pa.contains(pb[0]));
        let i = choose|i: int| 0 <= i < pa.len() && pa[i] == pb[0];
        if j > 0 {
            assert(lex_lt(pb[0], pb[j]));
            if i == 0 {
                lemma_lex_irreflexive(pa[0]);
            } else {
                assert(lex_lt(pa[0], pa[i]));
                lemma_lex_transitive(pa[0], pa[i], pa[0]);
                lemma_lex_irreflexive(pa[0]);
            }
        }
        assert(pa[0] == pb[0]);
        let qa = pa.drop_first();
        let qb = pb.drop_first();
        assert forall|x: int| 0 <= x < qa.len() implies qb.contains(#[trigger] qa[x]) by {
            assert(qa[x] == pa[x + 1]);
            assert(pb.contains(pa[x + 1]));
            let y = choose|y: int| 0 <= y < pb.len() && pb[y] == pa[x + 1];
            if y == 0 {
                assert(lex_lt(pa[0], pa[x + 1]));
                lemma_lex_irreflexive(pa[0]);
            }
            assert(qb[y - 1] == pb[y]);
        }
        assert forall|y: int| 0 <= y < qb.len() implies qa.contains(#[trigger] qb[y]) by {
            assert(qb[y] == pb[y + 1]);
            assert(pa.contains(pb[y + 1]));
            let x = choose|x: int| 0 <= x < pa.len() && pa[x] == pb[y + 1];
            if x == 0 {
                assert(lex_lt(pb[0], pb[y + 1]));
                lemma_lex_irreflexive(pb[0]);
            }
            assert(qa[x - 1] == pa[x]);
        }
        assert(plays_increasing(qa));
        assert(plays_increasing(qb));
        lemma_increasing_same_plays(qa, qb);
        assert(pa =~= seq![pa[0]] + qa);
        assert(pb =~= seq![pb[0]] + qb);
    }
}

/// The plays of a position that `legal_moves` lists are fixed: two lists of the
/// longest plays hold the same plays in the same order.
pub proof fn lemma_longest_plays_unique(sv: StateView, a: Seq<Move>, b: Seq<Move>)
    requires
        lists_longest_plays(sv, a),
        lists_longest_plays(sv, b),
    ensures
        a.map_values(|m: Move| play_of(m)) == b.map_values(|m: Move| play_of(m)),
        a.len() == b.len(),
        forall|i: int| 0 <= i < a.len() ==> #[trigger] a[i] is Ok && b[i] is Ok,
{
    let pa = a.map_values(|m: Move| play_of(m));
    let pb = b.map_values(|m: Move| play_of(m));
    let c = candidate_plays(sv);
    assert forall|i: int| 0 <= i < pa.len() implies pb.contains(#[trigger] pa[i]) by {
        assert(pa[i] == play_of(a[i]));
        assert(sorts_longest(sv, play_of(a[i])));
        let k = choose|k: int| 0 <= k < c.len() && is_longest(sv, c[k]) && sorted_version(pa[i], c[k]);
        assert(listed(pb, c[k]));
        let j = choose|j: int| 0 <= j < pb.len() && sorted_version(pb[j], c[k]);
        lemma_sorted_version_unique(pa[i], pb[j]);
    }
    assert forall|j: int| 0 <= j < pb.len() implies pa.contains(#[trigger] pb[j]) by {
        assert(pb[j] == play_of(b[j]));
        assert(sorts_longest(sv, play_of(b[j])));
        let k = choose|k: int| 0 <= k < c.len() && is_longest(sv, c[k]) && sorted_version(pb[j], c[k]);
        assert(listed(pa, c[k]));
        let i = choose|i: int| 0 <= i < pa.len() && sorted_version(pa[i], c[k]);
        lemma_sorted_version_unique(pa[i], pb[j]);
    }
    lemma_increasing_same_plays(pa, pb);
    assert(pa.len() == pb.len());
}

/// A sound position: each player has all its checkers on the table, and no point holds
/// checkers of both players.
pub open spec fn sound_position(sv: StateView) -> bool {
    &&& sv.wf()
    &&& checkers(sv.counts, true) == CHECKERS
    &&& checkers(sv.counts, false) == CHECKERS
    &&& forall|i: int| 1 <= i <= 24 ==> own(#[trigger] sv.counts[i], true) == 0 || own(sv.counts[i], false) == 0
}

/// The single moves `ms`, made in order by the player to move, are each legal in the
/// position the earlier ones leave (`legal_move`), and each moves between 1 and 127
/// points (every throw of the dice does).
pub open spec fn legal_chain(sv: StateView, ms: Seq<SingleMove>) -> bool
    decreases ms.len(),
{
    if ms.len() == 0 {
        true
    } else {
        let mid = StateView { counts: steps(sv.counts, sv.player, ms.drop_last()), ..sv };
        &&& legal_chain(sv, ms.drop_last())
        &&& move_in_range(sv.player, ms.last().0, ms.last().1)
        &&& 1 <= ms.last().1 < 128
        &&& spec_legal_move(mid, ms.last().0, ms.last().1)
    }
}

proof fn lemma_own_le(c: Seq<Count>, i: int, p: bool)
    requires
        0 <= i < c.len(),
    ensures
        own(c[i], p) <= checkers(c, p),
    decreases c.len(),
{
    if i < c.len() - 1 {
        lemma_own_le(c.drop_last(), i, p);
        assert(c.drop_last()[i] == c[i]);
    }
}

/// A legal single move keeps a position sound.
proof fn lemma_legal_step(sv: StateView, l: Location, n: u8)
    requires
        sound_position(sv),
        move_in_range(sv.player, l, n),
        1 <= n < 128,
        spec_legal_move(sv, l, n),
    ensures
        sound_position(StateView { counts: step(sv.counts, sv.player, (l, n)), ..sv }),
{
    reveal(step);
    let player = sv.player;
    let c = sv.counts;
    let from = l.idx() as int;
    let c1 = c.update(from, remove_checker(c[from], player));
    let to = landing(player, l, n).idx() as int;
    let hit = !goes_home(player, l, n) && own(c1[to], !player) > 0;
    let c2 = c1.update(to, add_checker(c1[to], player));
    let r = step(c, player, (l, n));
    assert(own(c[from], player) >= 1);
    assert(!goes_home(player, l, n) ==> 1 <= to <= 24 && to != from);
    assert(goes_home(player, l, n) ==> to == 25);
    // the mover's checkers
    lemma_checkers_update(c, from, remove_checker(c[from], player), player);
    lemma_checkers_update(c, from, remove_checker(c[from], player), !player);
    assert(own(remove_checker(c[from], player), player) == own(c[from], player) - 1);
    assert(own(remove_checker(c[from], player), !player) == own(c[from], !player));
    lemma_own_le(c1, to, player);
    lemma_checkers_update(c1, to, add_checker(c1[to], player), player);
    lemma_checkers_update(c1, to, add_checker(c1[to], player), !player);
    assert(own(add_checker(c1[to], player), player) == own(c1[to], player) + 1);
    assert(own(add_checker(c1[to], player), !player) == own(c1[to], !player));
    if hit {
        let c3 = c2.update(to, remove_checker(c2[to], !player));
        lemma_checkers_update(c2, to, remove_checker(c2[to], !player), player);
        lemma_checkers_update(c2, to, remove_checker(c2[to], !player), !player);
        assert(own(remove_checker(c2[to], !player), !player) == own(c2[to], !player) - 1);
        assert(own(remove_checker(c2[to], !player), player) == own(c2[to], player));
        lemma_own_le(c3, 0, !player);
        lemma_checkers_update(c3, 0, add_checker(c3[0], !player), player);
        lemma_checkers_update(c3, 0, add_checker(c3[0], !player), !player);
        assert(own(add_checker(c3[0], !player), !player) == own(c3[0], !player) + 1);
        assert(own(add_checker(c3[0], !player), player) == own(c3[0], player));
        assert(counts_at(sv, target(player, l, n)) == c[to]);
        assert(own(c[to], !player) <= 1);
        assert forall|i: int| 1 <= i <= 24 implies own(#[trigger] r[i], true) == 0 || own(r[i], false) == 0 by {
            if i == to {
                assert(own(r[i], !player) == 0);
            } else if i == from {
                assert(own(c[i], !player) == 0);
            }
        }
    } else {
        assert forall|i: int| 1 <= i <= 24 implies own(#[trigger] r[i], true) == 0 || own(r[i], false) == 0 by {
            if i == to {
                assert(own(r[i], !player) == 0);
            } else if i == from {
                assert(own(c[i], !player) == 0);
            }
        }
    }
}

/// A play whose single moves are each legal in the position the earlier ones leave keeps
/// the position sound: the checkers of each player stay fifteen, and no point ends up
/// holding checkers of both players.
pub proof fn lemma_legal_play_keeps_position(sv: StateView, ms: Seq<SingleMove>)
    requires
        sound_position(sv),
        legal_chain(sv, ms),
    ensures
        sound_position(StateView { counts: steps(sv.counts, sv.player, ms), ..sv }),
    decreases ms.len(),
{
    if ms.len() > 0 {
        lemma_legal_play_keeps_position(sv, ms.drop_last());
        let mid = StateView { counts: steps(sv.counts, sv.player, ms.drop_last()), ..sv };
        lemma_legal_step(mid, ms.last().0, ms.last().1);
    }
}

/// Applying a play whose single moves are each legal in turn keeps the position sound.
pub proof fn lemma_apply_keeps_position(sv: StateView, m: Move)
    requires
        sound_position(sv),
        m is Ok,
        legal_chain(sv, play_of(m)),
    ensures
        sound_position(spec_apply(sv, m)),
{
    lemma_legal_play_keeps_position(sv, play_of(m));
}

/// A single move of `player` that `apply` can carry out and that moves between 1 and 127
/// points (every throw of the dice does).
pub open spec fn forward_move(player: bool, m: SingleMove) -> bool {
    move_in_range(player, m.0, m.1) && 1 <= m.1 < 128
}

/// `1` when `b` holds, `0` otherwise.
pub open spec fn one_if(b: bool) -> int {
    if b { 1 } else { 0 }
}

proof fn lemma_mod_shift(a: int, k: int)
    ensures
        ((a % 256) + k) % 256 == (a + k) % 256,
{
    vstd::arithmetic::div_mod::lemma_add_mod_noop_right(k, a, 256);
}

proof fn lemma_wrap_one(x: u8)
    ensures
        vstd::wrapping::u8_specs::wrapping_sub(x, 1) as int == (x - 1) % 256,
        vstd::wrapping::u8_specs::wrapping_add(x, 1) as int == (x + 1) % 256,
        x as int == (x as int) % 256,
{
}

/// Where a single move lands, and whether it hits.
pub open spec fn move_hits(c: Seq<Count>, p: bool, m: SingleMove) -> bool {
    !goes_home(p, m.0, m.1) && own(c[landing(p, m.0, m.1).idx() as int], !p) > 0
}

/// One single move at the index `i`: the mover loses a checker where it starts and gains
/// one where it lands; a hit takes an opposing checker from the landing point to the bar.
proof fn lemma_step_at(c: Seq<Count>, p: bool, m: SingleMove, i: int)
    requires
        c.len() == LOCATIONS,
        forward_move(p, m),
        0 <= i < LOCATIONS,
    ensures
        step(c, p, m).len() == LOCATIONS,
        1 <= landing(p, m.0, m.1).idx() <= 25,
        goes_home(p, m.0, m.1) <==> landing(p, m.0, m.1).idx() == 25,
        own(step(c, p, m)[i], p) as int == (own(c[i], p) - one_if(i == m.0.idx())
            + one_if(i == landing(p, m.0, m.1).idx())) % 256,
        own(step(c, p, m)[i], !p) as int == (own(c[i], !p) - one_if(move_hits(c, p, m) && i == landing(p, m.0, m.1).idx())
            + one_if(move_hits(c, p, m) && i == 0)) % 256,
{
    reveal(step);
    let (l, n) = m;
    let f = l.idx() as int;
    let t = landing(p, l, n).idx() as int;
    let c1 = c.update(f, remove_checker(c[f], p));
    let c2 = c1.update(t, add_checker(c1[t], p));
    let hit = move_hits(c, p, m);
    assert(own(c1[t], !p) == own(c[t], !p));
    let a = own(c[i], p);
    let b = own(c[i], !p);
    lemma_wrap_one(a);
    lemma_wrap_one(b);
    lemma_wrap_one(own(c[f], p));
    lemma_wrap_one(own(c1[t], p));
    assert(own(c1[i], p) as int == (a - one_if(i == f)) % 256);
    assert(own(c1[i], !p) == b);
    assert(own(c2[i], !p) == b);
    if i == t {
        lemma_mod_shift(a - one_if(i == f), 1);
    }
    assert(own(c2[i], p) as int == (a - one_if(i == f) + one_if(i == t)) % 256);
    if hit {
        let c3 = c2.update(t, remove_checker(c2[t], !p));
        lemma_wrap_one(own(c2[t], !p));
        lemma_wrap_one(own(c3[0], !p));
        assert(own(c3[i], p) == own(c2[i], p));
        assert(own(c3[i], !p) as int == (b - one_if(i == t)) % 256);
    }
}

/// Two single moves of one player give the same position in either order.
#[verifier::rlimit(40)]
proof fn lemma_steps_commute(c: Seq<Count>, p: bool, x: SingleMove, y: SingleMove)
    requires
        c.len() == LOCATIONS,
        forward_move(p, x),
        forward_move(p, y),
    ensures
        step(step(c, p, x), p, y) == step(step(c, p, y), p, x),
{
    let r1 = step(c, p, x);
    let r2 = step(c, p, y);
    let a = step(r1, p, y);
    let b = step(r2, p, x);
    let t1 = landing(p, x.0, x.1).idx() as int;
    let t2 = landing(p, y.0, y.1).idx() as int;
    lemma_step_at(c, p, x, 0);
    lemma_step_at(c, p, y, 0);
    lemma_step_at(r1, p, y, 0);
    lemma_step_at(r2, p, x, 0);
    assert forall|i: int| 0 <= i < LOCATIONS implies a[i] == b[i] by {
        lemma_commute_at(c, p, x, y, i);
    }
    assert(a =~= b);
}

/// The counts at one index after two single moves, in either order, as numbers: `m0` and
/// `o0` the mover's and the opponent's there before, `ot1` and `ot2` the opponent's where
/// the moves land (`t1`, `t2`), `f1` and `f2` where they start.
proof fn lemma_commute_arith(m0: int, o0: int, ot1: int, ot2: int, i: int, f1: int, t1: int, f2: int, t2: int,
    home1: bool, home2: bool)
    requires
        0 <= m0 < 256,
        0 <= o0 < 256,
        0 <= ot1 < 256,
        0 <= ot2 < 256,
        1 <= t1 <= 25,
        1 <= t2 <= 25,
        home1 <==> t1 == 25,
        home2 <==> t2 == 25,
        i == t1 ==> o0 == ot1,
        i == t2 ==> o0 == ot2,
        t1 == t2 ==> ot1 == ot2,
    ensures
        ({
            let h1 = !home1 && ot1 > 0;
            let h2 = !home2 && ot2 > 0;
            let h2b = !home2 && (ot2 - one_if(h1 && t2 == t1) + one_if(h1 && t2 == 0)) % 256 > 0;
            let h1b = !home1 && (ot1 - one_if(h2 && t1 == t2) + one_if(h2 && t1 == 0)) % 256 > 0;
            &&& ((m0 - one_if(i == f1) + one_if(i == t1)) % 256 - one_if(i == f2) + one_if(i == t2)) % 256
                == ((m0 - one_if(i == f2) + one_if(i == t2)) % 256 - one_if(i == f1) + one_if(i == t1)) % 256
            &&& ((o0 - one_if(h1 && i == t1) + one_if(h1 && i == 0)) % 256 - one_if(h2b && i == t2) + one_if(h2b && i == 0)) % 256
                == ((o0 - one_if(h2 && i == t2) + one_if(h2 && i == 0)) % 256 - one_if(h1b && i == t1) + one_if(h1b && i == 0)) % 256
        }),
{
    let h1 = !home1 && ot1 > 0;
    let h2 = !home2 && ot2 > 0;
    let h2b = !home2 && (ot2 - one_if(h1 && t2 == t1) + one_if(h1 && t2 == 0)) % 256 > 0;
    let h1b = !home1 && (ot1 - one_if(h2 && t1 == t2) + one_if(h2 && t1 == 0)) % 256 > 0;
    lemma_mod_shift(m0 - one_if(i == f1) + one_if(i == t1), - one_if(i == f2) + one_if(i == t2));
    lemma_mod_shift(m0 - one_if(i == f2) + one_if(i == t2), - one_if(i == f1) + one_if(i == t1));
    lemma_mod_shift(o0 - one_if(h1 && i == t1) + one_if(h1 && i == 0), - one_if(h2b && i == t2) + one_if(h2b && i == 0));
    lemma_mod_shift(o0 - one_if(h2 && i == t2) + one_if(h2 && i == 0), - one_if(h1b && i == t1) + one_if(h1b && i == 0));
    if t1 != t2 {
        assert(h2b == h2);
        assert(h1b == h1);
    }
}

#[verifier::rlimit(60)]
proof fn lemma_commute_at(c: Seq<Count>, p: bool, x: SingleMove, y: SingleMove, i: int)
    requires
        c.len() == LOCATIONS,
        forward_move(p, x),
        forward_move(p, y),
        0 <= i < LOCATIONS,
    ensures
        step(step(c, p, x), p, y)[i] == step(step(c, p, y), p, x)[i],
{
    let r1 = step(c, p, x);
    let r2 = step(c, p, y);
    let t1 = landing(p, x.0, x.1).idx() as int;
    let t2 = landing(p, y.0, y.1).idx() as int;
    lemma_step_at(c, p, x, i);
    lemma_step_at(c, p, y, i);
    lemma_step_at(c, p, x, t2);
    lemma_step_at(c, p, y, t1);
    lemma_step_at(r1, p, y, i);
    lemma_step_at(r2, p, x, i);
    lemma_commute_arith(own(c[i], p) as int, own(c[i], !p) as int, own(c[t1], !p) as int, own(c[t2], !p) as int,
        i, x.0.idx() as int, t1, y.0.idx() as int, t2, goes_home(p, x.0, x.1), goes_home(p, y.0, y.1));
    let a = step(r1, p, y)[i];
    let b = step(r2, p, x)[i];
    assert(own(a, p) == own(b, p));
    assert(own(a, !p) == own(b, !p));
    assert(a.0 == b.0 && a.1 == b.1);
}

/// Carrying a single move `x` of a play to its end leaves the position unchanged.
proof fn lemma_steps_move_to_end(c: Seq<Count>, p: bool, a: Seq<SingleMove>, x: SingleMove, b: Seq<SingleMove>)
    requires
        c.len() == LOCATIONS,
        forward_move(p, x),
        forall|i: int| 0 <= i < a.len() ==> forward_move(p, #[trigger] a[i]),
        forall|i: int| 0 <= i < b.len() ==> forward_move(p, #[trigger] b[i]),
    ensures
        steps(c, p, a.push(x) + b) == step(steps(c, p, a + b), p, x),
        steps(c, p, a + b).len() == LOCATIONS,
    decreases b.len(),
{
    lemma_steps_len(c, p, a + b);
    if b.len() == 0 {
        assert(a.push(x) + b =~= a.push(x));
        assert(a + b =~= a);
        assert(a.push(x).drop_last() =~= a);
    } else {
        let y = b.last();
        let b0 = b.drop_last();
        assert(forward_move(p, b[b.len() - 1]));
        lemma_steps_move_to_end(c, p, a, x, b0);
        assert((a.push(x) + b).drop_last() =~= a.push(x) + b0);
        assert((a.push(x) + b).last() == y);
        assert((a + b).drop_last() =~= a + b0);
        assert((a + b).last() == y);
        lemma_steps_commute(steps(c, p, a + b0), p, x, y);
    }
}

proof fn lemma_steps_len(c: Seq<Count>, p: bool, ms: Seq<SingleMove>)
    requires
        c.len() == LOCATIONS,
        forall|i: int| 0 <= i < ms.len() ==> forward_move(p, #[trigger] ms[i]),
    ensures
        steps(c, p, ms).len() == LOCATIONS,
    decreases ms.len(),
{
    if ms.len() > 0 {
        assert(forward_move(p, ms[ms.len() - 1]));
        assert forall|i: int| 0 <= i < ms.drop_last().len() implies forward_move(p, #[trigger] ms.drop_last()[i]) by {
            assert(ms.drop_last()[i] == ms[i]);
        }
        lemma_steps_len(c, p, ms.drop_last());
        lemma_step_at(steps(c, p, ms.drop_last()), p, ms.last(), 0);
    }
}

/// The order of the single moves of a play does not matter: made in any order, the same
/// single moves (each moving between 1 and 127 points) give the same position. So a play
/// listed in sorted order gives the position that the order in which the player can
/// make its moves gives.
pub proof fn lemma_play_order_irrelevant(c: Seq<Count>, p: bool, ms: Seq<SingleMove>, ms2: Seq<SingleMove>)
    requires
        c.len() == LOCATIONS,
        forall|i: int| 0 <= i < ms.len() ==> forward_move(p, #[trigger] ms[i]),
        ms.to_multiset() == ms2.to_multiset(),
    ensures
        steps(c, p, ms) == steps(c, p, ms2),
    decreases ms.len(),
{
    broadcast use vstd::seq_lib::group_to_multiset_ensures;
    assert(ms.len() == ms.to_multiset().len());
    assert(ms2.len() == ms2.to_multiset().len());
    assert forall|i: int| 0 <= i < ms2.len() implies forward_move(p, #[trigger] ms2[i]) by {
        assert(ms2.to_multiset().count(ms2[i]) > 0);
        assert(ms.contains(ms2[i]));
        let k = choose|k: int| 0 <= k < ms.len() && ms[k] == ms2[i];
    }
    if ms.len() > 0 {
        let x = ms.last();
        assert(ms.contains(x));
        assert(ms2.to_multiset().count(x) > 0);
        assert(ms2.contains(x));
        let j = choose|j: int| 0 <= j < ms2.len() && ms2[j] == x;
        let a = ms2.subrange(0, j);
        let b = ms2.subrange(j + 1, ms2.len() as int);
        assert(ms2 =~= a.push(x) + b);
        assert(ms2.remove(j) =~= a + b);
        assert(ms.drop_last().push(x) =~= ms);
        assert(ms.drop_last().to_multiset() =~= ms.to_multiset().remove(x));
        assert(ms2.remove(j).to_multiset() =~= ms2.to_multiset().remove(ms2[j]));
        assert forall|i: int| 0 <= i < ms.drop_last().len() implies forward_move(p, #[trigger] ms.drop_last()[i]) by {
            assert(ms.drop_last()[i] == ms[i]);
        }
        assert forall|i: int| 0 <= i < a.len() implies forward_move(p, #[trigger] a[i]) by {
            assert(a[i] == ms2[i]);
        }
        assert forall|i: int| 0 <= i < b.len() implies forward_move(p, #[trigger] b[i]) by {
            assert(b[i] == ms2[i + j + 1]);
        }
        assert(forward_move(p, ms[ms.len() - 1]));
        lemma_play_order_irrelevant(c, p, ms.drop_last(), a + b);
        lemma_steps_move_to_end(c, p, a, x, b);
    }
}

/// Two plays made of the same single moves, each moving between 1 and 127 points, in any
/// order, lead to the same position: a play applied in its sorted order gives what the
/// order in which the player can make its moves gives.
pub proof fn lemma_apply_order_irrelevant(sv: StateView, a: Move, b: Move)
    requires
        sv.wf(),
        a is Ok,
        b is Ok,
        forall|i: int| 0 <= i < play_of(a).len() ==> forward_move(sv.player, #[trigger] play_of(a)[i]),
        play_of(a).to_multiset() == play_of(b).to_multiset(),
    ensures
        spec_apply(sv, a) == spec_apply(sv, b),
{
    lemma_play_order_irrelevant(sv.counts, sv.player, play_of(a), play_of(b));
}

/// A place a checker can be moved from: one of the 24 points, or the bar.
pub open spec fn move_source(l: Location) -> bool {
    match l {
        Location::Board(Point(k)) => 1 <= k <= 24,
        Location::Bar => true,
        Location::Home => false,
    }
}

/// `q` (listed last move first, as `legal_sequences` lists them) is a sequence of single
/// moves that the player to move can make one after the other with the dice `dice`, the
/// last die first: each moves a checker from a point or the bar by the next die and is
/// legal in the position the earlier ones leave.
pub open spec fn legal_sequence(sv: StateView, q: Seq<SingleMove>, dice: Seq<u8>) -> bool
    decreases q.len(),
{
    if q.len() == 0 || dice.len() == 0 {
        false
    } else {
        let m = q.last();
        &&& move_source(m.0)
        &&& m.1 == dice.last()
        &&& spec_legal_move(sv, m.0, m.1)
        &&& (q.len() == 1 || legal_sequence(after_single(sv, m), q.drop_last(), dice.drop_last()))
    }
}

proof fn lemma_filter_sources(s: Seq<Location>, pred: spec_fn(Location) -> bool)
    requires
        forall|i: int| 0 <= i < s.len() ==> move_source(#[trigger] s[i]),
    ensures
        forall|i: int| 0 <= i < s.filter(pred).len() ==> move_source(#[trigger] s.filter(pred)[i]),
    decreases s.len(),
{
    reveal(Seq::filter);
    if s.len() > 0 {
        lemma_filter_sources(s.drop_last(), pred);
        let sub = s.drop_last().filter(pred);
        assert forall|i: int| 0 <= i < s.filter(pred).len() implies move_source(#[trigger] s.filter(pred)[i]) by {
            if i < sub.len() {
                assert(s.filter(pred)[i] == sub[i]);
            }
        }
    }
}

/// The places a checker of the player to move can leave: exactly the points and the bar
/// where it has checkers.
proof fn lemma_positions_are_sources(sv: StateView, l: Location)
    ensures
        spec_positions(sv).contains(l) <==> move_source(l) && sv.height(l, sv.player) > 0,
{
    let all = spec_board().push(Location::Bar);
    let pred = |x: Location| sv.height(x, sv.player) > 0;
    assert forall|i: int| 0 <= i < all.len() implies move_source(#[trigger] all[i]) by {
        if i < 24 {
            assert(all[i] == Location::Board(Point((i + 1) as u8)));
        }
    }
    lemma_filter_sources(all, pred);
    broadcast use vstd::seq_lib::group_filter_ensures;
    if spec_positions(sv).contains(l) {
        let i = choose|i: int| 0 <= i < spec_positions(sv).len() && spec_positions(sv)[i] == l;
        assert(pred(spec_positions(sv)[i]));
    }
    if move_source(l) && sv.height(l, sv.player) > 0 {
        let i: int = match l {
            Location::Board(Point(k)) => k - 1,
            _ => 24,
        };
        assert(all[i] == l);
        all.lemma_filter_contains(pred, i);
    }
}

/// What `sequences_from` lists: for each of `ps` from which a die of `roll` can be moved,
/// that single move, and each sequence for the dice `rest` after it, extended by it.
proof fn lemma_sequences_from_members(sv: StateView, ps: Seq<Location>, roll: u8, rest: Seq<u8>, x: Seq<SingleMove>)
    ensures
        sequences_from(sv, ps, roll, rest).contains(x) <==> exists|k: int| 0 <= k < ps.len()
            && #[trigger] spec_legal_move(sv, ps[k], roll)
            && (x == seq![(ps[k], roll)] || (x.len() > 0 && x.last() == (ps[k], roll)
                && spec_legal_sequences(after_single(sv, (ps[k], roll)), rest).contains(x.drop_last()))),
    decreases ps.len(),
{
    if ps.len() > 0 {
        let ps0 = ps.drop_last();
        lemma_sequences_from_members(sv, ps0, roll, rest, x);
        let m = (ps.last(), roll);
        let before = sequences_from(sv, ps0, roll, rest);
        let later = spec_legal_sequences(after_single(sv, m), rest);
        let ext = later.map_values(|ms: Seq<SingleMove>| ms.push(m));
        if spec_legal_move(sv, ps.last(), roll) {
            let all = before + ext + seq![seq![m]];
            assert(sequences_from(sv, ps, roll, rest) == all);
            if all.contains(x) {
                let j = choose|j: int| 0 <= j < all.len() && all[j] == x;
                if j < before.len() {
                    assert(before[j] == x);
                    let k = choose|k: int| 0 <= k < ps0.len()
                        && #[trigger] spec_legal_move(sv, ps0[k], roll)
                        && (x == seq![(ps0[k], roll)] || (x.len() > 0 && x.last() == (ps0[k], roll)
                            && spec_legal_sequences(after_single(sv, (ps0[k], roll)), rest).contains(x.drop_last())));
                    assert(ps[k] == ps0[k]);
                } else if j < before.len() + ext.len() {
                    let y = later[j - before.len()];
                    assert(x == y.push(m));
                    assert(x.drop_last() =~= y);
                    assert(ps[ps.len() - 1] == ps.last());
                } else {
                    assert(ps[ps.len() - 1] == ps.last());
                }
            }
            if exists|k: int| 0 <= k < ps.len()
                && #[trigger] spec_legal_move(sv, ps[k], roll)
                && (x == seq![(ps[k], roll)] || (x.len() > 0 && x.last() == (ps[k], roll)
                    && spec_legal_sequences(after_single(sv, (ps[k], roll)), rest).contains(x.drop_last()))) {
                let k = choose|k: int| 0 <= k < ps.len()
                    && #[trigger] spec_legal_move(sv, ps[k], roll)
                    && (x == seq![(ps[k], roll)] || (x.len() > 0 && x.last() == (ps[k], roll)
                        && spec_legal_sequences(after_single(sv, (ps[k], roll)), rest).contains(x.drop_last())));
                if k < ps0.len() {
                    assert(ps0[k] == ps[k]);
                    assert(before.contains(x));
                    let j = choose|j: int| 0 <= j < before.len() && before[j] == x;
                    assert(all[j] == x);
                } else if x == seq![m] {
                    assert(all[all.len() - 1] == x);
                } else {
                    let y = x.drop_last();
                    let j = choose|j: int| 0 <= j < later.len() && later[j] == y;
                    assert(x =~= y.push(m));
                    assert(all[before.len() + j] == x);
                }
            }
        } else {
            assert(sequences_from(sv, ps, roll, rest) == before);
            if exists|k: int| 0 <= k < ps.len()
                && #[trigger] spec_legal_move(sv, ps[k], roll)
                && (x == seq![(ps[k], roll)] || (x.len() > 0 && x.last() == (ps[k], roll)
                    && spec_legal_sequences(after_single(sv, (ps[k], roll)), rest).contains(x.drop_last()))) {
                let k = choose|k: int| 0 <= k < ps.len()
                    && #[trigger] spec_legal_move(sv, ps[k], roll)
                    && (x == seq![(ps[k], roll)] || (x.len() > 0 && x.last() == (ps[k], roll)
                        && spec_legal_sequences(after_single(sv, (ps[k], roll)), rest).contains(x.drop_last())));
                assert(k < ps0.len());
                assert(ps0[k] == ps[k]);
            }
            if before.contains(x) {
                let k = choose|k: int| 0 <= k < ps0.len()
                    && #[trigger] spec_legal_move(sv, ps0[k], roll)
                    && (x == seq![(ps0[k], roll)] || (x.len() > 0 && x.last() == (ps0[k], roll)
                        && spec_legal_sequences(after_single(sv, (ps0[k], roll)), rest).contains(x.drop_last())));
                assert(ps[k] == ps0[k]);
            }
        }
    }
}

/// `legal_sequences` lists exactly the legal sequences of single moves: a sequence is
/// listed if and only if the player to move can make its single moves one after the
/// other with the dice, the last die first (`legal_sequence`).
pub proof fn lemma_legal_sequences_exact(sv: StateView, dice: Seq<u8>, q: Seq<SingleMove>)
    ensures
        spec_legal_sequences(sv, dice).contains(q) <==> legal_sequence(sv, q, dice),
    decreases dice.len(),
{
    if dice.len() > 0 {
        let ps = spec_positions(sv);
        let d = dice.last();
        let rest = dice.drop_last();
        lemma_sequences_from_members(sv, ps, d, rest, q);
        if q.len() > 0 {
            let m = q.last();
            lemma_positions_are_sources(sv, m.0);
            lemma_legal_sequences_exact(after_single(sv, m), rest, q.drop_last());
            if legal_sequence(sv, q, dice) {
                let k = choose|k: int| 0 <= k < ps.len() && ps[k] == m.0;
                assert(spec_legal_move(sv, ps[k], d));
                if q.len() == 1 {
                    assert(q =~= seq![(ps[k], d)]);
                }
            }
            if spec_legal_sequences(sv, dice).contains(q) {
                let k = choose|k: int| 0 <= k < ps.len()
                    && #[trigger] spec_legal_move(sv, ps[k], d)
                    && (q == seq![(ps[k], d)] || (q.len() > 0 && q.last() == (ps[k], d)
                        && spec_legal_sequences(after_single(sv, (ps[k], d)), rest).contains(q.drop_last())));
                assert(ps.contains(ps[k]));
                lemma_positions_are_sources(sv, ps[k]);
                if q == seq![(ps[k], d)] {
                    assert(q.last() == (ps[k], d));
                } else {
                    assert(q.drop_last().len() > 0 || !spec_legal_sequences(after_single(sv, m), rest).contains(q.drop_last()));
                }
            }
        } else {
            if spec_legal_sequences(sv, dice).contains(q) {
                let k = choose|k: int| 0 <= k < ps.len()
                    && #[trigger] spec_legal_move(sv, ps[k], d)
                    && (q == seq![(ps[k], d)] || (q.len() > 0 && q.last() == (ps[k], d)
                        && spec_legal_sequences(after_single(sv, (ps[k], d)), rest).contains(q.drop_last())));
                assert(seq![(ps[k], d)].len() == 1);
            }
        }
    }
}

/// The checkers of player `p` in the count `c`, read off the pair directly (white first).
pub open spec fn checkers_of(c: Count, p: bool) -> u8 {
    if p { c.0.0 } else { c.1.0 }
}

/// Moving a checker of the player to move `n` points (1 to 127) from the point `k`,
/// counted up for white and down for black, onto a point `t` of the board: with no
/// checker of its own on the bar, the move is legal exactly when the player has a checker
/// on `k` and the opponent has at most one on `t` (a blot, which the move hits).
pub proof fn lemma_point_move_legal(sv: StateView, k: u8, n: u8)
    requires
        sv.wf(),
        1 <= k <= 24,
        1 <= n < 128,
        checkers_of(sv.counts[0], sv.player) == 0,
        ({
            let t: int = if sv.player { k + n } else { k - n };
            1 <= t <= 24
        }),
    ensures
        ({
            let t: int = if sv.player { k + n } else { k - n };
            spec_legal_move(sv, Location::Board(Point(k)), n)
                == (checkers_of(sv.counts[k as int], sv.player) >= 1 && checkers_of(sv.counts[t], !sv.player) <= 1)
        }),
{
}

/// While the player to move has a checker on the bar, no move from a point is legal.
pub proof fn lemma_bar_first(sv: StateView, k: u8, n: u8)
    requires
        sv.wf(),
        1 <= k <= 24,
        checkers_of(sv.counts[0], sv.player) > 0,
    ensures
        !spec_legal_move(sv, Location::Board(Point(k)), n),
{
}

/// The game is over exactly when white or black has all fifteen checkers home, and then
/// (and only then) it has scores: the player who made the last play (the one not to move)
/// wins 1, 2 or 3 points, the other loses as many, and the dice score nothing.
pub proof fn lemma_game_end(sv: StateView)
    requires
        sv.wf(),
    ensures
        spec_finished(sv) == (checkers_of(sv.counts[25], true) == 15 || checkers_of(sv.counts[25], false) == 15),
        spec_scores(sv) is Some == spec_finished(sv),
        spec_scores(sv) matches Some(b) ==> {
            let w = !sv.player;
            let won = if w { b[2].1 } else { b[1].1 };
            let lost = if w { b[1].1 } else { b[2].1 };
            &&& b.len() == 3
            &&& b[0] == (None::<bool>, 0 as Score)
            &&& b[1].0 == Some(false) && b[2].0 == Some(true)
            &&& 1 <= won <= 3
            &&& lost == -won
        },
{
}

/// A checker entering from the bar with the die `n` (1 to 24) lands on point `n` for
/// white, which enters from the low end, and on point `25 - n` for black: the bar count
/// of the player loses one, that point gains one, and (with no opposing checker there)
/// nothing else changes.
pub proof fn lemma_enter_from_bar(sv: StateView, m: Move, n: u8)
    requires
        sv.wf(),
        m is Ok,
        play_of(m) == seq![(Location::Bar, n)],
        1 <= n <= 24,
        ({
            let t: int = if sv.player { n as int } else { 25 - n };
            checkers_of(sv.counts[t], !sv.player) == 0
        }),
    ensures
        ({
            let t: int = if sv.player { n as int } else { 25 - n };
            let c = sv.counts;
            let r = spec_apply(sv, m).counts;
            let p = sv.player;
            &&& r.len() == 26
            &&& checkers_of(r[t], p) as int == (checkers_of(c[t], p) + 1) % 256
            &&& checkers_of(r[0], p) as int == (checkers_of(c[0], p) - 1) % 256
            &&& checkers_of(r[t], !p) == 0
            &&& forall|i: int| 0 <= i < 26 && i != t && i != 0 ==> #[trigger] r[i] == c[i]
            &&& checkers_of(r[0], !p) == checkers_of(c[0], !p)
        }),
{
    reveal(step);
    let ms = play_of(m);
    assert(ms.drop_last() =~= Seq::<SingleMove>::empty());
    assert(ms.last() == (Location::Bar, n));
    let t: int = if sv.player { n as int } else { 25 - n };
    let c = sv.counts;
    assert(steps(c, sv.player, ms.drop_last()) == c);
    assert(steps(c, sv.player, ms) == step(c, sv.player, (Location::Bar, n)));
    assert(spec_apply(sv, m).counts == steps(c, sv.player, ms));
    lemma_wrap_one(checkers_of(c[t], sv.player));
    lemma_wrap_one(checkers_of(c[0], sv.player));
}

proof fn lemma_most_pips_bounds(c: Seq<Seq<SingleMove>>, b: nat)
    ensures
        forall|j: int| 0 <= j < c.len() ==> wrapped_pips(#[trigger] c[j]) <= most_pips(c),
        (forall|j: int| 0 <= j < c.len() ==> wrapped_pips(#[trigger] c[j]) <= b) ==> most_pips(c) <= b,
    decreases c.len(),
{
    if c.len() > 0 {
        lemma_most_pips_bounds(c.drop_last(), b);
        assert forall|j: int| 0 <= j < c.len() implies wrapped_pips(#[trigger] c[j]) <= most_pips(c) by {
            if j < c.len() - 1 {
                assert(c.drop_last()[j] == c[j]);
            }
        }
        if forall|j: int| 0 <= j < c.len() ==> wrapped_pips(#[trigger] c[j]) <= b {
            assert forall|j: int| 0 <= j < c.drop_last().len() implies wrapped_pips(#[trigger] c.drop_last()[j]) <= b by {
                assert(c.drop_last()[j] == c[j]);
            }
            assert(wrapped_pips(c[c.len() - 1]) <= b);
        }
    }
}

proof fn lemma_legal_sequence_len(sv: StateView, q: Seq<SingleMove>, d: Seq<u8>)
    requires
        legal_sequence(sv, q, d),
    ensures
        1 <= q.len() <= d.len(),
    decreases q.len(),
{
    if q.len() > 1 {
        lemma_legal_sequence_len(after_single(sv, q.last()), q.drop_last(), d.drop_last());
    }
}

proof fn lemma_uniform_pips(q: Seq<SingleMove>, x: u8)
    requires
        forall|j: int| 0 <= j < q.len() ==> (#[trigger] q[j]).1 == x,
    ensures
        pips(q) == q.len() * x,
    decreases q.len(),
{
    if q.len() > 0 {
        assert forall|j: int| 0 <= j < q.drop_last().len() implies (#[trigger] q.drop_last()[j]).1 == x by {
            assert(q.drop_last()[j] == q[j]);
        }
        lemma_uniform_pips(q.drop_last(), x);
        assert(q.last().1 == x);
        let n = q.drop_last().len();
        assert(n * x + x == (n + 1) * x) by (nonlinear_arith);
    }
}

/// With a double (both dice `x`, between 1 and 63), whenever the player to move can make
/// four single moves of `x` one after the other, every play that `legal_moves` lists is
/// four single moves of `x` (so `4 * x` points), and at least one is listed.
pub proof fn lemma_doubles_play_four(sv: StateView, r: Seq<Move>, q: Seq<SingleMove>)
    requires
        sv.dice.0 == sv.dice.1,
        1 <= sv.dice.0 <= 63,
        lists_longest_plays(sv, r),
        q.len() == 4,
        legal_sequence(sv, q, seq![sv.dice.0, sv.dice.0, sv.dice.0, sv.dice.0]),
    ensures
        r.len() > 0,
        forall|i: int| 0 <= i < r.len() ==> play_of(#[trigger] r[i]).len() == 4
            && forall|j: int| 0 <= j < 4 ==> play_of(r[i])[j].1 == sv.dice.0,
{
    broadcast use vstd::seq_lib::group_to_multiset_ensures;
    let x = sv.dice.0;
    let d4 = seq![x, x, x, x];
    let ls = spec_legal_sequences(sv, d4);
    let c = candidate_plays(sv);
    assert(c == seq![Seq::<SingleMove>::empty()] + ls);
    lemma_legal_sequences_moves(sv, d4);
    // every candidate moves `x` per single move, at most four times
    assert forall|k: int| 0 <= k < c.len() implies
        (#[trigger] c[k]).len() <= 4 && wrapped_pips(c[k]) == c[k].len() * x
        && forall|j: int| 0 <= j < c[k].len() ==> c[k][j].1 == x by {
        if k > 0 {
            let e = ls[k - 1];
            assert(c[k] == e);
            assert(ls.contains(e));
            lemma_legal_sequences_exact(sv, d4, e);
            lemma_legal_sequence_len(sv, e, d4);
            assert(moves_from(e, d4));
            assert forall|j: int| 0 <= j < e.len() implies (#[trigger] e[j]).1 == x by {
                assert(d4.contains(e[j].1));
                let t = choose|t: int| 0 <= t < d4.len() && d4[t] == e[j].1;
            }
            lemma_uniform_pips(e, x);
            assert(e.len() * x <= 4 * 63) by (nonlinear_arith)
                requires e.len() <= 4, x <= 63;
        } else {
            assert(c[0].len() == 0);
            assert(pips(c[0]) == 0);
        }
    }
    // the four-move sequence is a candidate, with the most points
    lemma_legal_sequences_exact(sv, d4, q);
    let kq = choose|k: int| 0 <= k < ls.len() && ls[k] == q;
    assert(c[kq + 1] == q);
    lemma_most_pips_bounds(c, (4 * x) as nat);
    assert forall|j: int| 0 <= j < c.len() implies wrapped_pips(#[trigger] c[j]) <= 4 * x by {
        assert(c[j].len() * x <= 4 * x) by (nonlinear_arith)
            requires c[j].len() <= 4, x >= 0;
    }
    assert(wrapped_pips(q) == 4 * x);
    assert(most_pips(c) == 4 * x);
    assert(is_longest(sv, c[kq + 1]));
    assert(listed(r.map_values(|m: Move| play_of(m)), c[kq + 1]));
    // every listed play is the sorted version of a longest candidate
    assert forall|i: int| 0 <= i < r.len() implies play_of(#[trigger] r[i]).len() == 4
        && forall|j: int| 0 <= j < 4 ==> play_of(r[i])[j].1 == x by {
        let pl = play_of(r[i]);
        assert(sorts_longest(sv, pl));
        let k = choose|k: int| 0 <= k < c.len() && is_longest(sv, c[k]) && sorted_version(pl, c[k]);
        assert(c[k].len() * x == 4 * x);
        assert(c[k].len() == 4) by (nonlinear_arith)
            requires c[k].len() * x == 4 * x, x >= 1;
        assert(pl.len() == pl.to_multiset().len());
        assert(c[k].len() == c[k].to_multiset().len());
        assert forall|j: int| 0 <= j < 4 implies pl[j].1 == x by {
            assert(pl.contains(pl[j]));
            assert(c[k].to_multiset().count(pl[j]) > 0);
            assert(c[k].contains(pl[j]));
            let t = choose|t: int| 0 <= t < c[k].len() && c[k][t] == pl[j];
        }
    }
}

} // verus!
