use rand::seq::SliceRandom;
use vstd::prelude::*;

use crate::game::{board_players, GameState, Score, ScoreBoard};

verus! {

/// What the search knows of one state.
pub struct Meta<G: GameState> {
    /// The scores of all playouts through the state added up, by player.
    pub scoreboard: ScoreBoard<G::Player>,
    /// The number of playouts through the state.
    pub playouts: u32,
    /// Each possible move of the state, the state it leads to, and the number of
    /// playouts that took it.
    pub moves: Vec<(G::Move, (G, usize))>,
    /// The number of playouts that ended by passing through the state (for garbage
    /// collection).
    paths: usize,
}

/// The content of a [`Meta`].
#[verifier::ext_equal]
pub struct MetaView<G: GameState> {
    pub scoreboard: Seq<(G::Player, Score)>,
    pub playouts: u32,
    pub moves: Seq<(G::Move, G::V, usize)>,
    pub paths: usize,
}

impl<G: GameState> View for Meta<G> {
    type V = MetaView<G>;

    closed spec fn view(&self) -> MetaView<G> {
        MetaView {
            scoreboard: self.scoreboard@,
            playouts: self.playouts,
            moves: self.moves@.map_values(|e: (G::Move, (G, usize))| (e.0, e.1.0@, e.1.1)),
            paths: self.paths,
        }
    }
}

/// Every player scoring zero.
pub open spec fn zero_board<G: GameState>() -> Seq<(G::Player, Score)> {
    G::player_list().map_values(|p: G::Player| (p, 0 as Score))
}

/// The statistics of a state that no playout has passed yet.
pub open spec fn is_fresh<G: GameState>(m: MetaView<G>) -> bool {
    &&& m.scoreboard == zero_board::<G>()
    &&& m.playouts == 0
    &&& m.paths == 0
    &&& forall|j: int| 0 <= j < m.moves.len() ==> (#[trigger] m.moves[j]).2 == 0
}

/// `ms` lists the possible moves of the state `g`, each with the state it leads to:
/// none once the game is over, else the moves `legal_moves` lists, up to `same_move`.
pub open spec fn lists_possible<G: GameState>(g: G, ms: Seq<(G::Move, G::V, usize)>) -> bool {
    &&& g.over() ==> ms.len() == 0
    &&& !g.over() ==> exists|l: Seq<G::Move>| #[trigger] g.lists_legal(l) && l.len() == ms.len()
        && forall|j: int| 0 <= j < l.len() ==> G::same_move(l[j], #[trigger] ms[j].0)
    &&& forall|j: int| 0 <= j < ms.len() ==> (#[trigger] ms[j]).1 == g.next(ms[j].0)
}

/// `m` is what the search first records for the state `v`: no playout yet, and the
/// possible moves of `v` with the states they lead to.
pub open spec fn fresh_for<G: GameState>(v: G::V, m: MetaView<G>) -> bool {
    &&& is_fresh::<G>(m)
    &&& lists_possible(choose|g: G| g@ == v, m.moves)
}

/// What `lists_possible` says of a state is a function of its view.
pub proof fn lemma_lists_possible_view<G: GameState>(a: G, b: G, ms: Seq<(G::Move, G::V, usize)>)
    requires
        a@ == b@,
        lists_possible(a, ms),
    ensures
        lists_possible(b, ms),
{
    G::lemma_view_determines(&a, &b, arbitrary());
    assert forall|j: int| 0 <= j < ms.len() implies (#[trigger] ms[j]).1 == b.next(ms[j].0) by {
        G::lemma_view_determines(&a, &b, ms[j].0);
    }
    if !b.over() {
        let l = choose|l: Seq<G::Move>| #[trigger] a.lists_legal(l) && l.len() == ms.len()
            && forall|j: int| 0 <= j < l.len() ==> G::same_move(l[j], #[trigger] ms[j].0);
        assert(b.lists_legal(l));
    }
}

/// The statistics belong to the state `s`: the board names every player, and every
/// move can be made in `s` and leads to the state recorded with it.
pub closed spec fn meta_fits<G: GameState>(s: G, m: Meta<G>) -> bool {
    &&& s.valid()
    &&& board_players(m.scoreboard@) == G::player_list()
    &&& forall|j: int| 0 <= j < m.moves@.len() ==> {
        &&& s.applicable(#[trigger] m.moves@[j].0)
        &&& m.moves@[j].1.0@ == s.next(m.moves@[j].0)
        &&& m.moves@[j].1.0.valid()
    }
}

impl<G: GameState> Meta<G> {
    /// The number of playouts that passed through the state.
    pub fn paths(&self) -> (r: usize)
        ensures
            r == self@.paths,
    {
        self.paths
    }

    /// Fresh statistics for `s`: every possible move, with the state it leads to.
    fn with_state(s: G) -> (m: Meta<G>)
        requires
            s.valid(),
        ensures
            meta_fits(s, m),
            is_fresh::<G>(m@),
            lists_possible(s, m@.moves),
    {
        let ms = s.possible_moves();
        let mut table: Vec<(G::Move, (G, usize))> = Vec::new();
        let mut i: usize = 0;
        while i < ms.len()
            invariant
                s.valid(),
                i <= ms.len(),
                table@.len() == i,
                forall|k: int| 0 <= k < ms@.len() ==> s.applicable(#[trigger] ms@[k]),
                forall|j: int| 0 <= j < table@.len() ==> G::same_move(ms@[j], #[trigger] table@[j].0),
                forall|j: int| 0 <= j < table@.len() ==> {
                    &&& s.applicable(#[trigger] table@[j].0)
                    &&& table@[j].1.0@ == s.next(table@[j].0)
                    &&& table@[j].1.0.valid()
                    &&& table@[j].1.1 == 0
                },
            decreases ms.len() - i,
        {
            let m = G::clone_move(&ms[i]);
            let applied = G::clone_move(&ms[i]);
            let mut new = s.copy_state();
            proof {
                G::lemma_same_move(&s, ms@[i as int], m);
                G::lemma_same_move(&s, ms@[i as int], applied);
                G::lemma_view_determines(&new, &s, applied);
                G::lemma_view_determines(&new, &s, m);
            }
            new.apply(applied);
            table.push((m, (new, 0)));
            i += 1;
        }
        let m = Meta { scoreboard: all_scores_zero::<G>(), playouts: 0, moves: table, paths: 0 };
        proof {
            assert(board_players(m.scoreboard@) =~= G::player_list());
            assert forall|j: int| 0 <= j < m@.moves.len() implies (#[trigger] m@.moves[j]).2 == 0 by {
                assert(m@.moves[j].2 == table@[j].1.1);
            }
            assert forall|j: int| 0 <= j < m@.moves.len() implies (#[trigger] m@.moves[j]).1 == s.next(m@.moves[j].0) by {
                assert(m@.moves[j] == (table@[j].0, table@[j].1.0@, table@[j].1.1));
            }
            if !s.over() {
                assert forall|j: int| 0 <= j < ms@.len() implies G::same_move(ms@[j], #[trigger] m@.moves[j].0) by {
                    assert(m@.moves[j] == (table@[j].0, table@[j].1.0@, table@[j].1.1));
                }
                assert(s.lists_legal(ms@));
            }
        }
        m
    }
}

/// A score board with every player at zero.
fn all_scores_zero<G: GameState>() -> (b: ScoreBoard<G::Player>)
    ensures
        b@ == zero_board::<G>(),
{
    let mut ps = G::players();
    let ghost all = ps@;
    let mut b: ScoreBoard<G::Player> = Vec::new();
    while ps.len() > 0
        invariant
            all == G::player_list(),
            b@.len() + ps@.len() == all.len(),
            ps@ == all.subrange(b@.len() as int, all.len() as int),
            b@ == all.subrange(0, b@.len() as int).map_values(|p: G::Player| (p, 0 as Score)),
        decreases ps.len(),
    {
        let p = ps.remove(0);
        let ghost k: int = b@.len() as int;
        b.push((p, 0));
        assert(all.subrange(0, k + 1) =~= all.subrange(0, k).push(p));
        assert(b@ =~= all.subrange(0, b@.len() as int).map_values(|p: G::Player| (p, 0 as Score)));
        assert(ps@ =~= all.subrange(b@.len() as int, all.len() as int));
    }
    assert(all.subrange(0, all.len() as int) =~= all);
    b
}


/// The score of player `p` on a board (its first entry; zero when it has none).
pub open spec fn score_of<P>(b: Seq<(P, Score)>, p: P) -> Score
    decreases b.len(),
{
    if b.len() == 0 {
        0
    } else if b[0].0 == p {
        b[0].1
    } else {
        score_of(b.drop_first(), p)
    }
}

/// What the upper-confidence-bound rule weighs for one move: the playouts of the state
/// the move leads to (zero when the table lacks it), that state's total score for the
/// player to move, and the playouts of the state the move starts from.
#[derive(Clone, Copy, PartialEq, Eq, Structural, Debug)]
pub struct UcbStats {
    pub visits: u32,
    pub score: Score,
    pub parent_visits: u32,
}

/// One of the positions of a slice, picked by `rand::seq::SliceRandom::choose` with the
/// thread's generator; `None` for an empty slice.
///
/// Which position comes back is left to chance; only that it is one of the slice's is
/// stated. The generator panics if the system's random source cannot be opened.
#[verifier::external_body]
fn random_position(items: &[usize]) -> (r: Option<usize>)
    ensures
        r is None <==> items@.len() == 0,
        r matches Some(x) ==> items@.contains(x),
{
    items.choose(&mut rand::thread_rng()).copied()
}

/// A board whose scores are those of `b` plus those of `d`, entry by entry (wrapping
/// around like the `i64` arithmetic of a release build).
pub open spec fn add_boards<P>(b: Seq<(P, Score)>, d: Seq<(P, Score)>) -> Seq<(P, Score)> {
    Seq::new(b.len(), |j: int| (b[j].0, vstd::wrapping::i64_specs::wrapping_add(b[j].1, d[j].1)))
}

/// `a` and `b` are the statistics of one state, up to the count of paths.
pub open spec fn same_but_paths<G: GameState>(a: MetaView<G>, b: MetaView<G>) -> bool {
    a.scoreboard == b.scoreboard && a.playouts == b.playouts && a.moves == b.moves
}

/// A Monte Carlo tree search table: the statistics of every state met so far.
///
/// The states are kept in a list, each once, in the order in which they were met.
pub struct MctsTable<G: GameState>(Vec<(G, Meta<G>)>);

impl<G: GameState> Default for MctsTable<G> {
    /// An empty table.
    fn default() -> (t: Self)
        ensures
            t.wf(),
            t.entries().len() == 0,
    {
        let t = MctsTable(Vec::new());
        assert(t.entries().len() == 0);
        t
    }
}

impl<G: GameState> MctsTable<G> {
    /// The states (by view) and their statistics, in the order in which they were met.
    pub closed spec fn entries(self) -> Seq<(G::V, MetaView<G>)> {
        self.0@.map_values(|e: (G, Meta<G>)| (e.0@, e.1@))
    }

    /// Each state appears once, with statistics that fit it.
    pub closed spec fn wf(self) -> bool {
        &&& forall|i: int, j: int| 0 <= i < j < self.0@.len() ==> self.0@[i].0@ != self.0@[j].0@
        &&& forall|i: int| 0 <= i < self.0@.len() ==> meta_fits(self.0@[i].0, #[trigger] self.0@[i].1)
    }

    /// The table holds the state `v`.
    pub open spec fn has(self, v: G::V) -> bool {
        exists|i: int| 0 <= i < self.entries().len() && self.entries()[i].0 == v
    }

    /// The position of the state `v` in the table.
    pub open spec fn position(self, v: G::V) -> int {
        choose|i: int| 0 <= i < self.entries().len() && self.entries()[i].0 == v
    }

    /// The statistics of the state `v`.
    pub open spec fn stats(self, v: G::V) -> MetaView<G> {
        self.entries()[self.position(v)].1
    }

    /// The number of playouts of the state `v`, zero when the table lacks it.
    pub open spec fn visits(self, v: G::V) -> u32 {
        if self.has(v) { self.stats(v).playouts } else { 0 }
    }

    /// In a well-formed table every state appears once.
    pub proof fn lemma_states_distinct(self)
        requires
            self.wf(),
        ensures
            forall|i: int, j: int| 0 <= i < j < self.entries().len() ==> self.entries()[i].0 != self.entries()[j].0,
    {
    }

    proof fn lemma_position(self, i: int)
        requires
            self.wf(),
            0 <= i < self.entries().len(),
        ensures
            self.has(self.entries()[i].0),
            self.position(self.entries()[i].0) == i,
            self.stats(self.entries()[i].0) == self.entries()[i].1,
    {
        let v = self.entries()[i].0;
        assert(self.entries()[i].0 == v);
        let j = self.position(v);
        if j != i {
            if j < i {
                assert(self.0@[j].0@ != self.0@[i].0@);
            } else {
                assert(self.0@[i].0@ != self.0@[j].0@);
            }
        }
    }

    /// The position of the state `s` in the list, if the table has it.
    fn find(&self, s: &G) -> (r: Option<usize>)
        requires
            self.wf(),
        ensures
            r matches Some(i) ==> i < self.entries().len() && self.entries()[i as int].0 == s@
                && self.position(s@) == i,
            r is None <==> !self.has(s@),
    {
        let mut i: usize = 0;
        while i < self.0.len()
            invariant
                self.wf(),
                i <= self.0@.len(),
                forall|j: int| 0 <= j < i ==> self.0@[j].0@ != s@,
            decreases self.0.len() - i,
        {
            if self.0[i].0.same_state(s) {
                proof {
                    assert(self.entries()[i as int].0 == self.0@[i as int].0@);
                    self.lemma_position(i as int);
                }
                return Some(i);
            }
            i += 1;
        }
        proof {
            if self.has(s@) {
                let j = choose|j: int| 0 <= j < self.entries().len() && self.entries()[j].0 == s@;
                assert(self.entries()[j].0 == self.0@[j].0@);
            }
        }
        None
    }

    /// Adds fresh statistics for a state the table lacks.
    fn insert(&mut self, s: G)
        requires
            old(self).wf(),
            !old(self).has(s@),
            s.valid(),
        ensures
            final(self).wf(),
            final(self).entries().len() == old(self).entries().len() + 1,
            final(self).entries().drop_last() == old(self).entries(),
            final(self).entries().last().0 == s@,
            fresh_for::<G>(s@, final(self).entries().last().1),
    {
        let key = s.copy_state();
        let m = Meta::with_state(s);
        proof {
            G::lemma_view_determines(&key, &s, arbitrary());
            assert forall|j: int| 0 <= j < m.moves@.len() implies {
                &&& key.applicable(#[trigger] m.moves@[j].0)
                &&& m.moves@[j].1.0@ == key.next(m.moves@[j].0)
                &&& m.moves@[j].1.0.valid()
            } by {
                G::lemma_view_determines(&key, &s, m.moves@[j].0);
            }
            assert(meta_fits(key, m));
        }
        let ghost old_t = self.0@;
        self.0.push((key, m));
        proof {
            assert forall|i: int| 0 <= i < old_t.len() implies self.0@[i].0@ != s@ by {
                assert(old(self).entries()[i].0 == old_t[i].0@);
            }
            assert(self.entries().drop_last() =~= old(self).entries());
            assert(self.entries().last().1 == m@);
            let g = choose|g: G| g@ == s@;
            assert(s@ == s@);
            lemma_lists_possible_view(s, g, m@.moves);
        }
    }

    /// A table holding the state `s` alone, with fresh statistics.
    pub fn with_state(s: G) -> (t: Self)
        requires
            s.valid(),
        ensures
            t.wf(),
            t.entries().len() == 1,
            t.entries()[0].0 == s@,
            fresh_for::<G>(s@, t.entries()[0].1),
    {
        let mut table = MctsTable(Vec::new());
        proof {
            assert(table.entries().len() == 0);
        }
        table.insert(s);
        table
    }

    /// A table holding the starting state of the game alone.
    pub fn new() -> (t: Self)
        ensures
            t.wf(),
            t.entries().len() == 1,
            t.entries()[0].0 == G::start(),
            fresh_for::<G>(G::start(), t.entries()[0].1),
    {
        Self::with_state(G::new())
    }

    /// The number of states in the table.
    pub fn len(&self) -> (n: usize)
        ensures
            n == self.entries().len(),
    {
        self.0.len()
    }

    /// The statistics of the state `s`, if the table has it.
    pub fn get(&self, s: &G) -> (r: Option<&Meta<G>>)
        requires
            self.wf(),
        ensures
            r matches Some(m) ==> self.has(s@) && m@ == self.stats(s@),
            r is None <==> !self.has(s@),
    {
        match self.find(s) {
            Some(i) => Some(&self.0[i].1),
            None => None,
        }
    }

    /// The `k`-th move of the state `v` is a most robust one: the state it leads to has
    /// the most playouts, and no later move's has as many.
    pub open spec fn most_robust(self, v: G::V, k: int) -> bool {
        let ms = self.stats(v).moves;
        &&& 0 <= k < ms.len()
        &&& forall|j: int| 0 <= j < ms.len() ==> self.visits(#[trigger] ms[j].1) <= self.visits(ms[k].1)
        &&& forall|j: int| k < j < ms.len() ==> self.visits(#[trigger] ms[j].1) < self.visits(ms[k].1)
    }

    /// The statistics the upper-confidence-bound rule weighs for the moves of the state
    /// `v`, in the order of its moves, for the player to move `p`.
    pub open spec fn ucb_candidates(self, v: G::V, p: G::Player) -> Seq<UcbStats> {
        let m = self.stats(v);
        m.moves.map_values(|e: (G::Move, G::V, usize)| UcbStats {
            visits: self.visits(e.1),
            score: if self.has(e.1) { score_of(self.stats(e.1).scoreboard, p) } else { 0 },
            parent_visits: m.playouts,
        })
    }

    /// The score of the state `v` for the player `p`, zero when the table lacks it.
    pub open spec fn seen_score(self, v: G::V, p: G::Player) -> Score {
        if self.has(v) { score_of(self.stats(v).scoreboard, p) } else { 0 }
    }

    /// What the upper-confidence-bound rule weighs for moves that lead to the states
    /// `targets`, from a state with `parent` playouts, for the player `p`.
    pub open spec fn ucb_for(self, targets: Seq<G::V>, parent: u32, p: G::Player) -> Seq<UcbStats> {
        targets.map_values(|v: G::V| UcbStats { visits: self.visits(v), score: self.seen_score(v, p), parent_visits: parent })
    }

    proof fn lemma_ucb_candidates(self, v: G::V, p: G::Player)
        requires
            self.has(v),
        ensures
            self.ucb_candidates(v, p) == self.ucb_for(move_targets::<G>(self.stats(v).moves), self.visits(v), p),
    {
        assert(self.ucb_candidates(v, p) =~= self.ucb_for(move_targets::<G>(self.stats(v).moves), self.visits(v), p));
    }

    /// Tables with the same playouts and scores for every state weigh moves alike.
    proof fn lemma_ucb_for_same(a: Self, b: Self, targets: Seq<G::V>, parent: u32, p: G::Player)
        requires
            forall|v: G::V| #[trigger] a.visits(v) == b.visits(v) && a.seen_score(v, p) == b.seen_score(v, p),
        ensures
            a.ucb_for(targets, parent, p) == b.ucb_for(targets, parent, p),
    {
        assert forall|j: int| 0 <= j < targets.len() implies a.ucb_for(targets, parent, p)[j] == b.ucb_for(targets, parent, p)[j] by {
            assert(a.visits(targets[j]) == b.visits(targets[j]));
        }
        assert(a.ucb_for(targets, parent, p) =~= b.ucb_for(targets, parent, p));
    }

    /// A table `a` that is `b` with some moves counted and fresh states added has the
    /// same playouts and scores for every state.
    proof fn lemma_same_counts(a: Self, b: Self, p: G::Player)
        requires
            a.wf(),
            b.wf(),
            a.entries().len() >= b.entries().len(),
            forall|x: int| 0 <= x < b.entries().len() ==> (#[trigger] a.entries()[x]).0 == b.entries()[x].0
                && a.entries()[x].1.playouts == b.entries()[x].1.playouts
                && a.entries()[x].1.scoreboard == b.entries()[x].1.scoreboard,
            forall|x: int| b.entries().len() <= x < a.entries().len() ==> (#[trigger] a.entries()[x]).1.playouts == 0
                && a.entries()[x].1.scoreboard == zero_board::<G>(),
        ensures
            forall|v: G::V| #[trigger] a.visits(v) == b.visits(v) && a.seen_score(v, p) == b.seen_score(v, p),
    {
        assert forall|v: G::V| #[trigger] a.visits(v) == b.visits(v) && a.seen_score(v, p) == b.seen_score(v, p) by {
            if b.has(v) {
                let y = b.position(v);
                b.lemma_position(y);
                assert(a.entries()[y].0 == v);
                a.lemma_position(y);
            } else if a.has(v) {
                let y = a.position(v);
                a.lemma_position(y);
                if y < b.entries().len() {
                    assert(b.entries()[y].0 == v);
                }
                lemma_zero_score::<G>(p);
            }
        }
    }

    /// The move that most playouts took (the most robust move): among the moves of `s`,
    /// the last one whose resulting state has the most playouts. `None` when the table
    /// lacks `s` or `s` has no moves.
    pub fn best_choice(&self, s: &G) -> (r: Option<G::Move>)
        requires
            self.wf(),
        ensures
            r is None <==> (!self.has(s@) || self.stats(s@).moves.len() == 0),
            r matches Some(m) ==> exists|k: int| self.most_robust(s@, k) && G::same_move(self.stats(s@).moves[k].0, m),
    {
        match self.find(s) {
            None => None,
            Some(i) => {
                let meta = &self.0[i].1;
                let ghost ms = self.stats(s@).moves;
                proof {
                    self.lemma_position(i as int);
                    assert(ms == meta@.moves);
                }
                if meta.moves.len() == 0 {
                    return None;
                }
                let mut best: usize = 0;
                let mut best_v = self.visits_of(&meta.moves[0].1.0);
                assert(ms[0].1 == meta.moves@[0].1.0@);
                let mut j: usize = 1;
                while j < meta.moves.len()
                    invariant
                        self.wf(),
                        ms == meta@.moves,
                        ms.len() == meta.moves@.len(),
                        1 <= j <= ms.len(),
                        best < j,
                        best_v == self.visits(ms[best as int].1),
                        forall|t: int| 0 <= t < j ==> self.visits(#[trigger] ms[t].1) <= best_v,
                        forall|t: int| best < t < j ==> self.visits(#[trigger] ms[t].1) < best_v,
                    decreases ms.len() - j,
                {
                    let v = self.visits_of(&meta.moves[j].1.0);
                    assert(ms[j as int].1 == meta.moves@[j as int].1.0@);
                    if v >= best_v {
                        best = j;
                        best_v = v;
                    }
                    j += 1;
                }
                let m = G::clone_move(&meta.moves[best].0);
                assert(ms[best as int].0 == meta.moves@[best as int].0);
                assert(self.most_robust(s@, best as int));
                Some(m)
            }
        }
    }

    /// The score of player `p` on a board: its first entry.
    fn score_in(b: &ScoreBoard<G::Player>, p: &G::Player) -> (r: Score)
        ensures
            r == score_of(b@, *p),
    {
        let mut j: usize = 0;
        assert(b@.skip(0) =~= b@);
        while j < b.len()
            invariant
                j <= b@.len(),
                score_of(b@, *p) == score_of(b@.skip(j as int), *p),
            decreases b.len() - j,
        {
            assert(b@.skip(j as int)[0] == b@[j as int]);
            if G::same_player(&b[j].0, p) {
                return b[j].1;
            }
            assert(b@.skip(j as int).drop_first() =~= b@.skip(j + 1));
            j += 1;
        }
        assert(b@.skip(j as int).len() == 0);
        0
    }

    /// The statistics the upper-confidence-bound rule weighs for the moves of `s`,
    /// in the order of its moves; `None` when the table lacks `s`.
    pub fn ucb_stats(&self, s: &G) -> (r: Option<Vec<UcbStats>>)
        requires
            self.wf(),
            s.valid(),
        ensures
            r is None <==> !self.has(s@),
            r matches Some(c) ==> c@ == self.ucb_candidates(s@, s.to_move()),
    {
        match self.find(s) {
            None => None,
            Some(i) => {
                let p = s.current_player();
                let meta = &self.0[i].1;
                let ghost cands = self.ucb_candidates(s@, s.to_move());
                proof {
                    self.lemma_position(i as int);
                }
                let mut c: Vec<UcbStats> = Vec::new();
                let mut j: usize = 0;
                while j < meta.moves.len()
                    invariant
                        self.wf(),
                        meta@ == self.stats(s@),
                        p == s.to_move(),
                        cands == self.ucb_candidates(s@, s.to_move()),
                        cands.len() == meta.moves@.len(),
                        j <= meta.moves@.len(),
                        c@ == cands.subrange(0, j as int),
                    decreases meta.moves@.len() - j,
                {
                    let child = &meta.moves[j].1.0;
                    assert(meta@.moves[j as int].1 == child@);
                    let st = match self.find(child) {
                        None => UcbStats { visits: 0, score: 0, parent_visits: meta.playouts },
                        Some(ci) => {
                            proof {
                                self.lemma_position(ci as int);
                            }
                            let cm = &self.0[ci].1;
                            UcbStats { visits: cm.playouts, score: Self::score_in(&cm.scoreboard, &p), parent_visits: meta.playouts }
                        }
                    };
                    c.push(st);
                    assert(c@ =~= cands.subrange(0, j + 1));
                    j += 1;
                }
                assert(c@ =~= cands);
                Some(c)
            }
        }
    }

    /// Whether the state `s` has had ten playouts for each of its `moves` legal moves,
    /// the point at which the search has explored it enough (the product wraps around
    /// like the `u32` arithmetic of a release build).
    pub fn has_explored(&self, s: &G, moves: usize) -> (r: bool)
        requires
            self.wf(),
        ensures
            r == (self.visits(s@) >= vstd::wrapping::u32_specs::wrapping_mul(10, moves as u32)),
    {
        self.visits_of(s) >= 10u32.wrapping_mul(moves as u32)
    }

    /// The number of playouts of the state `s`, zero when the table lacks it.
    fn visits_of(&self, s: &G) -> (n: u32)
        requires
            self.wf(),
        ensures
            n == self.visits(s@),
    {
        match self.find(s) {
            Some(i) => self.0[i].1.playouts,
            None => 0,
        }
    }

    /// A move of the `i`-th state (the state `s`), picked at random among the positions
    /// of moves that `select` names for the statistics of its moves (`ucb_stats`);
    /// `None` when it names none.
    ///
    /// `select` stands for the upper-confidence-bound rule: it returns the positions
    /// of the moves with the highest bound.
    fn best_choice_<F>(&self, i: usize, s: &G, select: &F) -> (r: Option<usize>)
        where
            F: Fn(&Vec<UcbStats>) -> Vec<usize>,
        requires
            self.wf(),
            i < self.entries().len(),
            self.entries()[i as int].0 == s@,
            s.valid(),
            forall|c: &Vec<UcbStats>| #[trigger] select.requires((c,)),
        ensures
            r matches Some(k) ==> k < self.entries()[i as int].1.moves.len(),
            exists|c: Vec<UcbStats>, picks: Vec<usize>| #![trigger select.ensures((&c,), picks)]
                select.ensures((&c,), picks) && c@ == self.ucb_candidates(s@, s.to_move())
                && (r is None <==> forall|t: int| 0 <= t < picks@.len()
                    ==> #[trigger] picks@[t] >= self.entries()[i as int].1.moves.len())
                && (r matches Some(k) ==> picks@.contains(k)),
    {
        proof {
            self.lemma_position(i as int);
        }
        let stats = match self.ucb_stats(s) {
            Some(c) => c,
            None => Vec::new(),
        };
        assert(self.has(s@));
        let picks = select(&stats);
        let n = self.0[i].1.moves.len();
        assert(n == self.entries()[i as int].1.moves.len());
        let mut valid: Vec<usize> = Vec::new();
        let mut j: usize = 0;
        while j < picks.len()
            invariant
                j <= picks@.len(),
                forall|t: int| 0 <= t < valid@.len() ==> #[trigger] valid@[t] < n && picks@.contains(valid@[t]),
                valid@.len() == 0 <==> forall|t: int| 0 <= t < j ==> #[trigger] picks@[t] >= n,
            decreases picks@.len() - j,
        {
            if picks[j] < n {
                valid.push(picks[j]);
            }
            j += 1;
        }
        let r = random_position(valid.as_slice());
        proof {
            if let Some(k) = r {
                let t = choose|t: int| 0 <= t < valid@.len() && valid@[t] == k;
                assert(valid@[t] < n);
            }
            assert(select.ensures((&stats,), picks));
        }
        r
    }

    /// Runs one playout from `s`, descending at most `max_its` moves (see `playout_`):
    /// along a line of play from `s` whose every move `select` named, it adds the states
    /// the table lacks, counts one touch for each move taken and, for each visit of a
    /// state, one playout and one path and the scores where the line ended (the game's
    /// scores if it is over there, zero for everyone otherwise).
    pub fn playout<F>(&mut self, s: &G, max_its: u32, select: &F)
        where
            F: Fn(&Vec<UcbStats>) -> Vec<usize>,
        requires
            old(self).wf(),
            s.valid(),
            forall|c: &Vec<UcbStats>| #[trigger] select.requires((c,)),
        ensures
            final(self).wf(),
            final(self).has(s@),
            exists|d: Seq<(G::Player, Score)>| board_players(d) == G::player_list()
                && #[trigger] final(self).played_out(*old(self), s@, max_its as int, select, d),
    {
        let scores = self.playout_(s, max_its, select);
    }

    /// The tables hold the same states with the same moves, the same children and
    /// boards for the same players, in the same order: only counters differ.
    closed spec fn only_counters(a: Seq<(G, Meta<G>)>, b: Seq<(G, Meta<G>)>) -> bool {
        &&& a.len() == b.len()
        &&& forall|x: int| 0 <= x < a.len() ==> {
            &&& (#[trigger] b[x]).0 == a[x].0
            &&& board_players(b[x].1.scoreboard@) == board_players(a[x].1.scoreboard@)
            &&& b[x].1.moves@.len() == a[x].1.moves@.len()
            &&& forall|y: int| 0 <= y < a[x].1.moves@.len() ==> {
                &&& (#[trigger] b[x].1.moves@[y]).0 == a[x].1.moves@[y].0
                &&& b[x].1.moves@[y].1.0 == a[x].1.moves@[y].1.0
            }
        }
    }

    proof fn lemma_only_counters(a: Self, b: Self)
        requires
            a.wf(),
            Self::only_counters(a.0@, b.0@),
        ensures
            b.wf(),
            b.entries().len() == a.entries().len(),
            forall|x: int| 0 <= x < a.entries().len() ==> #[trigger] b.entries()[x].0 == a.entries()[x].0,
    {
        assert forall|x: int| 0 <= x < b.0@.len() implies meta_fits(b.0@[x].0, #[trigger] b.0@[x].1) by {
            assert(meta_fits(a.0@[x].0, a.0@[x].1));
            let m = b.0@[x].1;
            assert forall|j: int| 0 <= j < m.moves@.len() implies {
                &&& b.0@[x].0.applicable(#[trigger] m.moves@[j].0)
                &&& m.moves@[j].1.0@ == b.0@[x].0.next(m.moves@[j].0)
                &&& m.moves@[j].1.0.valid()
            } by {
                assert(m.moves@[j].0 == a.0@[x].1.moves@[j].0);
            }
        }
        assert forall|x: int| 0 <= x < a.entries().len() implies #[trigger] b.entries()[x].0 == a.entries()[x].0 by {
            assert(b.0@[x].0 == a.0@[x].0);
        }
    }

    /// Counts one more playout taking the `k`-th move of the `i`-th state.
    fn touch(&mut self, i: usize, k: usize)
        requires
            old(self).wf(),
            i < old(self).entries().len(),
            k < old(self).entries()[i as int].1.moves.len(),
        ensures
            final(self).wf(),
            final(self).entries().len() == old(self).entries().len(),
            final(self).entries()[i as int] == (old(self).entries()[i as int].0, with_touch(old(self).entries()[i as int].1, k as int)),
            forall|x: int| 0 <= x < old(self).entries().len() && x != i ==> #[trigger] final(self).entries()[x] == old(self).entries()[x],
    {
        let t = self.0[i].1.moves[k].1.1.wrapping_add(1);
        self.0[i].1.moves[k].1.1 = t;
        proof {
            Self::lemma_only_counters(*old(self), *self);
            assert(self.entries()[i as int].1.moves =~= with_touch(old(self).entries()[i as int].1, k as int).moves);
            assert(self.entries()[i as int].1 =~= with_touch(old(self).entries()[i as int].1, k as int));
        }
    }

    /// Counts one more playout and path of the `i`-th state and adds `scores` to its board.
    fn record(&mut self, i: usize, scores: &ScoreBoard<G::Player>)
        requires
            old(self).wf(),
            i < old(self).entries().len(),
            board_players(scores@) == G::player_list(),
        ensures
            final(self).wf(),
            final(self).entries().len() == old(self).entries().len(),
            final(self).entries()[i as int] == (old(self).entries()[i as int].0, with_result(old(self).entries()[i as int].1, scores@)),
            forall|x: int| 0 <= x < old(self).entries().len() && x != i ==> #[trigger] final(self).entries()[x] == old(self).entries()[x],
    {
        proof {
            assert(meta_fits(self.0@[i as int].0, self.0@[i as int].1));
            assert(board_players(scores@).len() == scores@.len());
            assert(board_players(self.0@[i as int].1.scoreboard@).len() == self.0@[i as int].1.scoreboard@.len());
        }
        self.0[i].1.paths = self.0[i].1.paths.wrapping_add(1);
        self.0[i].1.playouts = self.0[i].1.playouts.wrapping_add(1);
        let n = self.0[i].1.scoreboard.len();
        let ghost b0 = self.0@[i as int].1.scoreboard@;
        let mut j: usize = 0;
        while j < n
            invariant
                i < self.0@.len(),
                n == self.0@[i as int].1.scoreboard@.len(),
                n == scores@.len(),
                b0.len() == n,
                j <= n,
                Self::only_counters(old(self).0@, self.0@),
                forall|x: int| 0 <= x < old(self).0@.len() && x != i ==> #[trigger] self.0@[x] == old(self).0@[x],
                self.0@[i as int].1.moves == old(self).0@[i as int].1.moves,
                self.0@[i as int].1.paths == vstd::wrapping::usize_specs::wrapping_add(old(self).0@[i as int].1.paths, 1),
                self.0@[i as int].1.playouts == vstd::wrapping::u32_specs::wrapping_add(old(self).0@[i as int].1.playouts, 1),
                b0 == old(self).0@[i as int].1.scoreboard@,
                forall|t: int| 0 <= t < j ==> #[trigger] self.0@[i as int].1.scoreboard@[t] == add_boards(b0, scores@)[t],
                forall|t: int| j <= t < n ==> #[trigger] self.0@[i as int].1.scoreboard@[t] == b0[t],
            decreases n - j,
        {
            let d = scores[j].1;
            let v = self.0[i].1.scoreboard[j].1.wrapping_add(d);
            self.0[i].1.scoreboard[j].1 = v;
            proof {
                assert(board_players(self.0@[i as int].1.scoreboard@) =~= board_players(old(self).0@[i as int].1.scoreboard@));
            }
            j += 1;
        }
        proof {
            Self::lemma_only_counters(*old(self), *self);
            assert(self.0@[i as int].1.scoreboard@ =~= add_boards(b0, scores@));
            assert(self.entries()[i as int].1 =~= with_result(old(self).entries()[i as int].1, scores@));
        }
    }

    /// A playout that ended at once in `s`, the `i`-th state: `t0` is the table `o` with
    /// `s` added if it lacked it, `f` is `t0` with the scores `d` recorded for `s`.
    proof fn lemma_played_end(o: Self, t0: Self, f: Self, i: int, s: G::V, d: Seq<(G::Player, Score)>)
        requires
            t0.wf(),
            f.wf(),
            0 <= i < t0.entries().len(),
            t0.entries()[i].0 == s,
            forall|x: int| 0 <= x < o.entries().len() ==> #[trigger] t0.entries()[x] == o.entries()[x],
            t0.entries().len() == o.entries().len() || t0.entries().len() == o.entries().len() + 1,
            t0.entries().len() == o.entries().len() + 1 ==> t0.entries().last().0 == s
                && fresh_for::<G>(s, t0.entries().last().1),
            f.entries().len() == t0.entries().len(),
            f.entries()[i] == (t0.entries()[i].0, with_result(t0.entries()[i].1, d)),
            forall|x: int| 0 <= x < t0.entries().len() && x != i ==> #[trigger] f.entries()[x] == t0.entries()[x],
        ensures
            f.played(o, seq![s], Seq::<int>::empty(), d),
    {
        let path = seq![s];
        let ks = Seq::<int>::empty();
        t0.lemma_states_distinct();
        assert forall|x: int| 0 <= x < o.entries().len() implies #[trigger] f.entries()[x]
            == (o.entries()[x].0, bumped(o.entries()[x].1, path, ks, d, o.entries()[x].0)) by {
            let v = o.entries()[x].0;
            assert(t0.entries()[x] == o.entries()[x]);
            lemma_bumped_end(o.entries()[x].1, s, d, v);
            if x != i {
                assert(v != s);
            }
        }
        assert forall|x: int| o.entries().len() <= x < f.entries().len() implies path.contains((#[trigger] f.entries()[x]).0)
            && fresh_bumped(f.entries()[x], path, ks, d) by {
            assert(x == t0.entries().len() - 1);
            assert(x == i);
            let m = t0.entries()[x].1;
            lemma_bumped_end(m, s, d, s);
            assert(path[0] == s);
        }
        assert(f.entries()[i].0 == s);
        assert forall|t: int| 0 <= t < path.len() implies f.has(#[trigger] path[t]) by {
            assert(path[t] == s);
        }
    }

    /// Recording a result for the `i`-th state keeps every state, at its place, with its
    /// moves.
    proof fn lemma_record_keeps(t2: Self, f: Self, i: int, d: Seq<(G::Player, Score)>)
        requires
            t2.wf(),
            f.wf(),
            0 <= i < t2.entries().len(),
            f.entries().len() == t2.entries().len(),
            f.entries()[i] == (t2.entries()[i].0, with_result(t2.entries()[i].1, d)),
            forall|x: int| 0 <= x < t2.entries().len() && x != i ==> #[trigger] f.entries()[x] == t2.entries()[x],
        ensures
            forall|u: G::V| #[trigger] t2.has(u) ==> f.has(u),
            forall|u: G::V| t2.has(u) ==> #[trigger] f.stats(u).moves == t2.stats(u).moves,
    {
        assert forall|x: int| 0 <= x < f.entries().len() implies (#[trigger] f.entries()[x]).0 == t2.entries()[x].0
            && f.entries()[x].1.moves == t2.entries()[x].1.moves by {
            if x != i {
                assert(f.entries()[x] == t2.entries()[x]);
            }
        }
        assert forall|u: G::V| #[trigger] t2.has(u) implies f.has(u) && f.stats(u).moves == t2.stats(u).moves by {
            let y = t2.position(u);
            t2.lemma_position(y);
            assert(f.entries()[y].0 == u);
            assert(0 <= y < f.entries().len() && f.entries()[y].0 == u);
            f.lemma_position(y);
        }
    }

    /// A playout that took the `k`-th move of `s` (the `i`-th state) and went on along `p`
    /// with the moves `ks`: `t0` is the table `o` with `s` added if it lacked it, `t1` is
    /// `t0` with the move counted, `t2` is `t1` after the playout from the resulting state,
    /// and `f` is `t2` with the scores `d` recorded for `s`.
    proof fn lemma_played_step(o: Self, t0: Self, t1: Self, t2: Self, f: Self, i: int, k: int, s: G::V, p: Seq<G::V>,
        ks: Seq<int>, d: Seq<(G::Player, Score)>)
        requires
            t0.wf(),
            t1.wf(),
            t2.wf(),
            f.wf(),
            0 <= i < t0.entries().len(),
            t0.entries()[i].0 == s,
            forall|x: int| 0 <= x < o.entries().len() ==> #[trigger] t0.entries()[x] == o.entries()[x],
            t0.entries().len() == o.entries().len() || t0.entries().len() == o.entries().len() + 1,
            t0.entries().len() == o.entries().len() + 1 ==> t0.entries().last().0 == s
                && fresh_for::<G>(s, t0.entries().last().1),
            0 <= k < t0.entries()[i].1.moves.len(),
            t0.entries()[i].1.moves[k].1 == p[0],
            t1.entries().len() == t0.entries().len(),
            t1.entries()[i] == (t0.entries()[i].0, with_touch(t0.entries()[i].1, k)),
            forall|x: int| 0 <= x < t0.entries().len() && x != i ==> #[trigger] t1.entries()[x] == t0.entries()[x],
            t2.played(t1, p, ks, d),
            f.entries().len() == t2.entries().len(),
            f.entries()[i] == (t2.entries()[i].0, with_result(t2.entries()[i].1, d)),
            forall|x: int| 0 <= x < t2.entries().len() && x != i ==> #[trigger] f.entries()[x] == t2.entries()[x],
        ensures
            f.played(o, seq![s] + p, seq![k] + ks, d),
            forall|u: G::V| #[trigger] t2.has(u) ==> f.has(u),
            forall|u: G::V| t2.has(u) ==> #[trigger] f.stats(u).moves == t2.stats(u).moves,
    {
        let path = seq![s] + p;
        let kp = seq![k] + ks;
        t0.lemma_states_distinct();
        t2.lemma_states_distinct();
        assert(t1.entries()[i] == t0.entries()[i] || true);
        assert(t2.entries()[i] == (t1.entries()[i].0, bumped(t1.entries()[i].1, p, ks, d, t1.entries()[i].0)));
        Self::lemma_record_keeps(t2, f, i, d);
        // the entries of o
        assert forall|x: int| 0 <= x < o.entries().len() implies #[trigger] f.entries()[x]
            == (o.entries()[x].0, bumped(o.entries()[x].1, path, kp, d, o.entries()[x].0)) by {
            let v = o.entries()[x].0;
            assert(t0.entries()[x] == o.entries()[x]);
            assert(t2.entries()[x] == (t1.entries()[x].0, bumped(t1.entries()[x].1, p, ks, d, t1.entries()[x].0)));
            if x == i {
                lemma_bumped_step(o.entries()[x].1, s, k, p, ks, d, s);
            } else {
                assert(v != s);
                assert(t1.entries()[x] == t0.entries()[x]);
                lemma_bumped_step(o.entries()[x].1, s, k, p, ks, d, v);
            }
        }
        // the added entries
        assert forall|x: int| o.entries().len() <= x < f.entries().len() implies path.contains((#[trigger] f.entries()[x]).0)
            && fresh_bumped(f.entries()[x], path, kp, d) by {
            let w = f.entries()[x].0;
            if x < t1.entries().len() {
                assert(x == t0.entries().len() - 1);
                assert(x == i);
                let m = t0.entries()[x].1;
                assert(t2.entries()[x] == (t1.entries()[x].0, bumped(t1.entries()[x].1, p, ks, d, t1.entries()[x].0)));
                lemma_bumped_step(m, s, k, p, ks, d, s);
                assert(path[0] == s);
                assert(f.entries()[x].0 == s);
                assert(fresh_for::<G>(f.entries()[x].0, m) && f.entries()[x].1 == bumped(m, path, kp, d, f.entries()[x].0));
            } else {
                assert(x != i);
                assert(f.entries()[x] == t2.entries()[x]);
                assert(p.contains(t2.entries()[x].0));
                assert(fresh_bumped(t2.entries()[x], p, ks, d));
                let m = choose|m: MetaView<G>| fresh_for::<G>(t2.entries()[x].0, m) && t2.entries()[x].1 == bumped(m, p, ks, d, t2.entries()[x].0);
                assert(t2.entries()[i].0 == s);
                assert(w != s);
                lemma_bumped_step(m, s, k, p, ks, d, w);
                let j = choose|j: int| 0 <= j < p.len() && p[j] == w;
                assert(path[j + 1] == w);
                assert(fresh_for::<G>(f.entries()[x].0, m) && f.entries()[x].1 == bumped(m, path, kp, d, f.entries()[x].0));
            }
        }
        // the line's states are in f
        assert(f.entries()[i].0 == s);
        assert forall|t: int| 0 <= t < path.len() implies f.has(#[trigger] path[t]) by {
            if t > 0 {
                let u = t - 1;
                assert(path[t] == p[u]);
                assert(t2.has(p[u]));
                assert(f.stats(p[u]).moves == t2.stats(p[u]).moves);
            } else {
                assert(path[0] == s);
                assert(f.entries()[i].0 == s);
            }
        }
        assert(path.len() == kp.len() + 1);
        // each move taken leads to the next state
        assert forall|t: int| #![trigger kp[t]] 0 <= t < kp.len() implies 0 <= kp[t] < f.stats(path[t]).moves.len()
            && f.stats(path[t]).moves[kp[t]].1 == path[t + 1] by {
            if t == 0 {
                f.lemma_position(i);
                assert(path[0] == s);
                assert(path[1] == p[0]);
                assert(kp[0] == k);
                assert(t1.entries()[i].1.moves[k].1 == p[0]);
                assert(t2.entries()[i].1.moves[k].1 == p[0]);
            } else {
                let u = t - 1;
                assert(kp[t] == ks[u]);
                assert(path[t] == p[u]);
                assert(path[t + 1] == p[u + 1]);
                assert(0 <= ks[u] < t2.stats(p[u]).moves.len() && t2.stats(p[u]).moves[ks[u]].1 == p[u + 1]);
                assert(t2.has(p[u]));
                assert(f.stats(p[u]).moves == t2.stats(p[u]).moves);
            }
        }
    }

    /// The table is `earlier` after a playout along the line of states `path`, which took
    /// the moves at positions `ks` (one per step) and backed up the scores `d`: every
    /// entry of `earlier` keeps its place and state, with its counters raised for each
    /// visit and each move taken (`bumped`); the added entries are states of the line,
    /// first recorded fresh; the table holds every state of the line, and each move taken
    /// leads to the next state of the line.
    pub open spec fn played(self, earlier: Self, path: Seq<G::V>, ks: Seq<int>, d: Seq<(G::Player, Score)>) -> bool {
        &&& path.len() == ks.len() + 1
        &&& self.entries().len() >= earlier.entries().len()
        &&& forall|x: int| 0 <= x < earlier.entries().len() ==> #[trigger] self.entries()[x]
            == (earlier.entries()[x].0, bumped(earlier.entries()[x].1, path, ks, d, earlier.entries()[x].0))
        &&& forall|x: int| earlier.entries().len() <= x < self.entries().len() ==> path.contains((#[trigger] self.entries()[x]).0)
        &&& forall|x: int| earlier.entries().len() <= x < self.entries().len() ==> fresh_bumped(#[trigger] self.entries()[x], path, ks, d)
        &&& forall|t: int| 0 <= t < path.len() ==> self.has(#[trigger] path[t])
        &&& forall|t: int| #![trigger ks[t]] 0 <= t < ks.len() ==> 0 <= ks[t] < self.stats(path[t]).moves.len()
            && self.stats(path[t]).moves[ks[t]].1 == path[t + 1]
    }

    /// The playout from `v` with at most `n` moves went along `path` taking the moves `ks`:
    /// the table is `earlier` after it (`played`), `d` are the scores where it ended
    /// (`end_scores`), every move taken is one that `select` named when given the
    /// statistics of the state it left as `earlier` holds them (`ucb_for`: on the way down
    /// no playout or score changes, and states added on the way count as having none), and
    /// a playout that stopped short of `n` moves stopped where `select`, given the
    /// statistics of the last state, named no move.
    pub open spec fn played_line<F: Fn(&Vec<UcbStats>) -> Vec<usize>>(self, earlier: Self, v: G::V, n: int, select: &F,
        d: Seq<(G::Player, Score)>, path: Seq<G::V>, ks: Seq<int>) -> bool {
        &&& self.played(earlier, path, ks, d)
        &&& path[0] == v
        &&& path.len() <= n + 1
        &&& d == end_scores::<G>(path.last())
        &&& forall|t: int| 0 <= t < ks.len() ==> #[trigger] picked_from(select,
            earlier.ucb_for(move_targets::<G>(self.stats(path[t]).moves), earlier.visits(path[t]), player_of::<G>(path[t])), ks[t])
        &&& path.len() <= n ==> picks_none_from(select,
            earlier.ucb_for(move_targets::<G>(self.stats(path.last()).moves), earlier.visits(path.last()), player_of::<G>(path.last())),
            self.stats(path.last()).moves.len() as int)
    }

    /// The table is `earlier` after a playout from `v` with at most `n` moves that backed
    /// up the scores `d`, along some line (`played_line`).
    pub open spec fn played_out<F: Fn(&Vec<UcbStats>) -> Vec<usize>>(self, earlier: Self, v: G::V, n: int, select: &F,
        d: Seq<(G::Player, Score)>) -> bool {
        exists|path: Seq<G::V>, ks: Seq<int>| #[trigger] self.played_line(earlier, v, n, select, d, path, ks)
    }

    /// The table `t0`, which is `o` with `s` (its `i`-th state) added fresh if it lacked
    /// it, or `t0` with a move counted, has the playouts and scores of `o` for every
    /// state.
    proof fn lemma_counts_kept(o: Self, t0: Self, t1: Self, i: int, s: G::V, p: G::Player)
        requires
            t0.wf(),
            t1.wf(),
            o.wf(),
            0 <= i < t0.entries().len(),
            t0.entries()[i].0 == s,
            forall|x: int| 0 <= x < o.entries().len() ==> #[trigger] t0.entries()[x] == o.entries()[x],
            t0.entries().len() == o.entries().len() || t0.entries().len() == o.entries().len() + 1,
            t0.entries().len() == o.entries().len() + 1 ==> t0.entries().last().0 == s
                && fresh_for::<G>(s, t0.entries().last().1),
            t1.entries().len() == t0.entries().len(),
            t1.entries()[i].0 == t0.entries()[i].0,
            t1.entries()[i].1.playouts == t0.entries()[i].1.playouts,
            t1.entries()[i].1.scoreboard == t0.entries()[i].1.scoreboard,
            forall|x: int| 0 <= x < t0.entries().len() && x != i ==> #[trigger] t1.entries()[x] == t0.entries()[x],
        ensures
            forall|v: G::V| #[trigger] t1.visits(v) == o.visits(v) && t1.seen_score(v, p) == o.seen_score(v, p),
    {
        t0.lemma_states_distinct();
        assert forall|x: int| 0 <= x < o.entries().len() implies (#[trigger] t1.entries()[x]).0 == o.entries()[x].0
            && t1.entries()[x].1.playouts == o.entries()[x].1.playouts
            && t1.entries()[x].1.scoreboard == o.entries()[x].1.scoreboard by {
            assert(t0.entries()[x] == o.entries()[x]);
        }
        assert forall|x: int| o.entries().len() <= x < t1.entries().len() implies (#[trigger] t1.entries()[x]).1.playouts == 0
            && t1.entries()[x].1.scoreboard == zero_board::<G>() by {
            assert(x == t0.entries().len() - 1);
            assert(x == i);
        }
        Self::lemma_same_counts(t1, o, p);
    }

    /// The line of a playout that took the `k`-th move of `s` (see `lemma_played_step`):
    /// the move was picked from the statistics of `s` before the playout, and the rest of
    /// the line was picked from statistics that the touch and the fresh state leave as
    /// they were in `o`.
    proof fn lemma_playout_step_line<F: Fn(&Vec<UcbStats>) -> Vec<usize>>(o: Self, t0: Self, t1: Self, t2: Self, f: Self, i: int, k: int,
        s: G::V, p: Seq<G::V>, ks: Seq<int>, d: Seq<(G::Player, Score)>, select: &F, n: int)
        requires
            o.wf(),
            t0.wf(),
            t1.wf(),
            t2.wf(),
            f.wf(),
            n >= 1,
            0 <= i < t0.entries().len(),
            t0.entries()[i].0 == s,
            forall|x: int| 0 <= x < o.entries().len() ==> #[trigger] t0.entries()[x] == o.entries()[x],
            t0.entries().len() == o.entries().len() || t0.entries().len() == o.entries().len() + 1,
            t0.entries().len() == o.entries().len() + 1 ==> t0.entries().last().0 == s
                && fresh_for::<G>(s, t0.entries().last().1),
            0 <= k < t0.entries()[i].1.moves.len(),
            t0.entries()[i].1.moves[k].1 == p[0],
            t1.entries().len() == t0.entries().len(),
            t1.entries()[i] == (t0.entries()[i].0, with_touch(t0.entries()[i].1, k)),
            forall|x: int| 0 <= x < t0.entries().len() && x != i ==> #[trigger] t1.entries()[x] == t0.entries()[x],
            t2.played_line(t1, p[0], n - 1, select, d, p, ks),
            f.entries().len() == t2.entries().len(),
            f.entries()[i] == (t2.entries()[i].0, with_result(t2.entries()[i].1, d)),
            forall|x: int| 0 <= x < t2.entries().len() && x != i ==> #[trigger] f.entries()[x] == t2.entries()[x],
            picked_from(select, t0.ucb_candidates(s, player_of::<G>(s)), k),
        ensures
            f.played_line(o, s, n, select, d, seq![s] + p, seq![k] + ks),
    {
        Self::lemma_played_step(o, t0, t1, t2, f, i, k, s, p, ks, d);
        Self::lemma_record_keeps(t2, f, i, d);
        let path = seq![s] + p;
        let kp = seq![k] + ks;
        assert(path.last() == p.last());
        assert(path[0] == s);
        t0.lemma_position(i);
        f.lemma_position(i);
        let ps = player_of::<G>(s);
        t0.lemma_ucb_candidates(s, ps);
        Self::lemma_counts_kept(o, t0, t0, i, s, ps);
        Self::lemma_ucb_for_same(t0, o, move_targets::<G>(t0.stats(s).moves), t0.visits(s), ps);
        assert(t2.entries()[i] == (t1.entries()[i].0, bumped(t1.entries()[i].1, p, ks, d, t1.entries()[i].0)));
        assert(move_targets::<G>(f.stats(s).moves) =~= move_targets::<G>(t0.stats(s).moves));
        assert forall|t: int| 0 <= t < kp.len() implies #[trigger] picked_from(select,
            o.ucb_for(move_targets::<G>(f.stats(path[t]).moves), o.visits(path[t]), player_of::<G>(path[t])), kp[t]) by {
            if t == 0 {
                assert(kp[0] == k);
            } else {
                let w = t - 1;
                let u = p[w];
                assert(kp[t] == ks[w]);
                assert(path[t] == u);
                assert(t2.has(u));
                assert(f.stats(u).moves == t2.stats(u).moves);
                Self::lemma_counts_kept(o, t0, t1, i, s, player_of::<G>(u));
                Self::lemma_ucb_for_same(t1, o, move_targets::<G>(t2.stats(u).moves), t1.visits(u), player_of::<G>(u));
                assert(t1.visits(u) == o.visits(u));
                assert(picked_from(select,
                    t1.ucb_for(move_targets::<G>(t2.stats(p[w]).moves), t1.visits(p[w]), player_of::<G>(p[w])), ks[w]));
            }
        }
        if path.len() <= n {
            let u = p.last();
            assert(t2.has(u));
            assert(f.stats(u).moves == t2.stats(u).moves);
            Self::lemma_counts_kept(o, t0, t1, i, s, player_of::<G>(u));
            Self::lemma_ucb_for_same(t1, o, move_targets::<G>(t2.stats(u).moves), t1.visits(u), player_of::<G>(u));
        }
    }

    /// The line of a playout that ended at once in `s` (see `lemma_played_end`).
    proof fn lemma_playout_end_line<F: Fn(&Vec<UcbStats>) -> Vec<usize>>(o: Self, t0: Self, f: Self, i: int, s: G::V,
        d: Seq<(G::Player, Score)>, select: &F, n: int)
        requires
            o.wf(),
            t0.wf(),
            f.wf(),
            n >= 0,
            0 <= i < t0.entries().len(),
            t0.entries()[i].0 == s,
            forall|x: int| 0 <= x < o.entries().len() ==> #[trigger] t0.entries()[x] == o.entries()[x],
            t0.entries().len() == o.entries().len() || t0.entries().len() == o.entries().len() + 1,
            t0.entries().len() == o.entries().len() + 1 ==> t0.entries().last().0 == s
                && fresh_for::<G>(s, t0.entries().last().1),
            f.entries().len() == t0.entries().len(),
            f.entries()[i] == (t0.entries()[i].0, with_result(t0.entries()[i].1, d)),
            forall|x: int| 0 <= x < t0.entries().len() && x != i ==> #[trigger] f.entries()[x] == t0.entries()[x],
            d == end_scores::<G>(s),
            n > 0 ==> picks_none_from(select, t0.ucb_candidates(s, player_of::<G>(s)), t0.entries()[i].1.moves.len() as int),
        ensures
            f.played_line(o, s, n, select, d, seq![s], Seq::<int>::empty()),
    {
        Self::lemma_played_end(o, t0, f, i, s, d);
        let path = seq![s];
        t0.lemma_position(i);
        f.lemma_position(i);
        let ps = player_of::<G>(s);
        t0.lemma_ucb_candidates(s, ps);
        Self::lemma_counts_kept(o, t0, t0, i, s, ps);
        Self::lemma_ucb_for_same(t0, o, move_targets::<G>(t0.stats(s).moves), t0.visits(s), ps);
        assert(move_targets::<G>(f.stats(s).moves) =~= move_targets::<G>(t0.stats(s).moves));
        assert(path.last() == s);
    }

    /// Runs one playout from `s`: adds `s` to the table if it lacks it; while moves are
    /// left (at most `max_its` of them), takes the move `best_choice_` picks, counts it
    /// and plays out from the state it leads to; at the end takes the scores of the state
    /// reached (zero for everyone when the game is not over). Every state on the way back
    /// counts one more playout and one more path and adds the scores to its board.
    fn playout_<F>(&mut self, s: &G, max_its: u32, select: &F) -> (scores: ScoreBoard<G::Player>)
        where
            F: Fn(&Vec<UcbStats>) -> Vec<usize>,
        requires
            old(self).wf(),
            s.valid(),
            forall|c: &Vec<UcbStats>| #[trigger] select.requires((c,)),
        ensures
            final(self).wf(),
            board_players(scores@) == G::player_list(),
            final(self).has(s@),
            final(self).played_out(*old(self), s@, max_its as int, select, scores@),
        decreases max_its,
    {
        let i: usize = match self.find(s) {
            Some(i) => i,
            None => {
                let c = s.copy_state();
                proof {
                    G::lemma_view_determines(&c, s, arbitrary());
                }
                self.insert(c);
                (self.0.len() - 1) as usize
            },
        };
        let ghost t0 = *self;
        proof {
            assert(t0.entries()[i as int].0 == s@);
            assert forall|x: int| 0 <= x < old(self).entries().len() implies #[trigger] t0.entries()[x] == old(self).entries()[x] by {
                if !old(self).has(s@) {
                    assert(t0.entries().drop_last()[x] == t0.entries()[x]);
                }
            }
        }
        let ghost mut t1 = t0;
        let ghost mut t2 = t0;
        let ghost mut path2: Seq<G::V> = Seq::empty();
        let ghost mut ks2: Seq<int> = Seq::empty();
        let ghost mut kk: int = 0;
        let best = if max_its > 0 { self.best_choice_(i, s, select) } else { None };
        proof {
            if max_its > 0 {
                assert(exists|c: Vec<UcbStats>, picks: Vec<usize>| #![trigger select.ensures((&c,), picks)]
                    select.ensures((&c,), picks) && c@ == t0.ucb_candidates(s@, s.to_move())
                    && (best is None <==> forall|t: int| 0 <= t < picks@.len()
                        ==> #[trigger] picks@[t] >= t0.entries()[i as int].1.moves.len())
                    && (best matches Some(k) ==> picks@.contains(k)));
            }
        }
        let scores: ScoreBoard<G::Player>;
        match best {
            Some(k) => {
                proof {
                    self.lemma_position(i as int);
                    let key = self.0@[i as int].0;
                    let mv = self.0@[i as int].1.moves@[k as int].0;
                    assert(meta_fits(key, self.0@[i as int].1));
                    assert(self.entries()[i as int].0 == key@);
                    G::lemma_view_determines(&key, s, mv);
                }
                self.touch(i, k);
                proof {
                    assert(self.entries()[i as int].1 == self.0@[i as int].1@);
                    assert(self.0@[i as int].1@.moves.len() == self.0@[i as int].1.moves@.len());
                }
                let best_move = G::clone_move(&self.0[i].1.moves[k].0);
                let mut new = s.copy_state();
                proof {
                    let key = self.0@[i as int].0;
                    let mv = self.0@[i as int].1.moves@[k as int].0;
                    assert(meta_fits(key, self.0@[i as int].1));
                    G::lemma_view_determines(&key, s, mv);
                    G::lemma_same_move(s, mv, best_move);
                    G::lemma_view_determines(&new, s, best_move);
                }
                new.apply(best_move);
                proof {
                    t1 = *self;
                    kk = k as int;
                    assert(self.entries()[i as int].1 == self.0@[i as int].1@);
                    assert(t1.entries()[i as int].1.moves[k as int].1 == new@);
                    assert(t0.entries()[i as int].1.moves[k as int].1 == new@);
                }
                scores = self.playout_(&new, max_its - 1, select);
                proof {
                    t2 = *self;
                    let (p, q) = choose|p: Seq<G::V>, q: Seq<int>| #[trigger] t2.played_line(t1, new@, (max_its - 1) as int, select, scores@, p, q);
                    path2 = p;
                    ks2 = q;
                }
            }
            None => {
                scores = match s.scores() {
                    Some(b) => b,
                    None => all_scores_zero::<G>(),
                };
                assert(board_players(zero_board::<G>()) =~= G::player_list());
            }
        }
        let ghost t3 = *self;
        self.record(i, &scores);
        proof {
            let g = choose|g: G| g@ == s@;
            assert(s@ == s@);
            G::lemma_view_determines(&g, s, arbitrary());
            assert(player_of::<G>(s@) == s.to_move());
            if best is Some {
                assert(t3 == t2);
                assert(picked_from(select, t0.ucb_candidates(s@, player_of::<G>(s@)), kk));
                Self::lemma_playout_step_line(*old(self), t0, t1, t2, *self, i as int, kk, s@, path2, ks2, scores@, select, max_its as int);
            } else {
                if max_its > 0 {
                    assert(picks_none_from(select, t0.ucb_candidates(s@, player_of::<G>(s@)), t0.entries()[i as int].1.moves.len() as int));
                }
                let path = seq![s@];
                assert(scores@ == end_scores::<G>(path.last()));
                Self::lemma_playout_end_line(*old(self), t0, *self, i as int, s@, scores@, select, max_its as int);
            }
        }
        scores
    }

    /// Takes `touches` paths off the count of the `i`-th state (wrapping around like the
    /// `usize` arithmetic of a release build).
    fn release(&mut self, i: usize, touches: usize)
        requires
            old(self).wf(),
            i < old(self).entries().len(),
        ensures
            final(self).wf(),
            final(self).entries().len() == old(self).entries().len(),
            final(self).entries()[i as int] == (old(self).entries()[i as int].0, MetaView::<G> {
                paths: vstd::wrapping::usize_specs::wrapping_sub(old(self).entries()[i as int].1.paths, touches),
                ..old(self).entries()[i as int].1
            }),
            forall|x: int| 0 <= x < old(self).entries().len() && x != i ==> #[trigger] final(self).entries()[x] == old(self).entries()[x],
    {
        self.0[i].1.paths = self.0[i].1.paths.wrapping_sub(touches);
        proof {
            Self::lemma_only_counters(*old(self), *self);
            assert(self.entries()[i as int].1 =~= MetaView::<G> {
                paths: vstd::wrapping::usize_specs::wrapping_sub(old(self).entries()[i as int].1.paths, touches),
                ..old(self).entries()[i as int].1
            });
        }
    }

    /// Every entry of the table stands in the table `old`, with the same statistics up
    /// to the count of paths.
    pub open spec fn kept_from(self, earlier: Self) -> bool {
        forall|x: int| 0 <= x < self.entries().len() ==> #[trigger] earlier.keeps(self.entries()[x])
    }

    /// The table has an entry for the state of `e` with the statistics of `e` up to the
    /// count of paths.
    pub open spec fn keeps(self, e: (G::V, MetaView<G>)) -> bool {
        exists|y: int| 0 <= y < self.entries().len() && self.entries()[y].0 == e.0 && same_but_paths(self.entries()[y].1, e.1)
    }

    /// Some playout went from a state of the table into the state `v`.
    pub open spec fn pointed(self, v: G::V) -> bool {
        exists|y: int, k: int|
            0 <= y < self.entries().len() && 0 <= k < self.entries()[y].1.moves.len()
                && #[trigger] self.entries()[y].1.moves[k].1 == v && self.entries()[y].1.moves[k].2 > 0
    }

    /// One of the moves recorded for the state `from` leads to the state `v`.
    pub open spec fn leads_to(self, from: G::V, v: G::V) -> bool {
        exists|k: int| 0 <= k < self.stats(from).moves.len() && #[trigger] self.stats(from).moves[k].1 == v
    }

    /// A playout went from the state `u` straight to the state `w`: a move recorded for
    /// `u` that leads to `w` has been taken.
    pub open spec fn took(self, u: G::V, w: G::V) -> bool {
        exists|y: int, k: int|
            0 <= y < self.entries().len() && self.entries()[y].0 == u && 0 <= k < self.entries()[y].1.moves.len()
                && #[trigger] self.entries()[y].1.moves[k].1 == w && self.entries()[y].1.moves[k].2 > 0
    }

    /// Each state of `path` leads to the next by a move that playouts took.
    pub open spec fn took_along(self, path: Seq<G::V>) -> bool {
        forall|t: int| 0 <= t < path.len() - 1 ==> #[trigger] self.took(path[t], path[t + 1])
    }

    /// The state `v` is `s` or is reached from `s` through moves that playouts took.
    pub open spec fn reaches(self, s: G::V, v: G::V) -> bool {
        exists|path: Seq<G::V>| #[trigger] self.took_along(path) && path.len() >= 1 && path[0] == s && path.last() == v
    }

    proof fn lemma_reaches_start(self, s: G::V)
        ensures
            self.reaches(s, s),
    {
        assert(self.took_along(seq![s]));
    }

    proof fn lemma_reaches_step(self, s: G::V, u: G::V, w: G::V)
        requires
            self.reaches(s, u),
            self.took(u, w),
        ensures
            self.reaches(s, w),
    {
        let path = choose|path: Seq<G::V>| #[trigger] self.took_along(path) && path.len() >= 1 && path[0] == s && path.last() == u;
        let p2 = path.push(w);
        assert forall|t: int| 0 <= t < p2.len() - 1 implies #[trigger] self.took(p2[t], p2[t + 1]) by {
            if t < path.len() - 1 {
                assert(self.took(path[t], path[t + 1]));
            }
        }
        assert(self.took_along(p2));
    }

    proof fn lemma_reached_pointed(self, s: G::V, v: G::V)
        requires
            self.reaches(s, v),
            v != s,
        ensures
            self.pointed(v),
    {
        let path = choose|path: Seq<G::V>| #[trigger] self.took_along(path) && path.len() >= 1 && path[0] == s && path.last() == v;
        let t = path.len() - 2;
        assert(self.took(path[t], path[t + 1]));
    }

    proof fn lemma_index_in(self, v: G::V)
        requires
            self.wf(),
        ensures
            self.has(v) ==> index_in(self.entries(), v) == self.position(v),
            !self.has(v) ==> index_in(self.entries(), v) == -1,
    {
    }

    /// The table holds the entry `e` exactly, its count of paths included.
    pub open spec fn holds(self, e: (G::V, MetaView<G>)) -> bool {
        exists|y: int| 0 <= y < self.entries().len() && #[trigger] self.entries()[y] == e
    }

    /// Removes the state `s` and, through the moves that playouts took, every state
    /// reached from it that no playout then passes through any more: a removed state's
    /// moves give back their playouts to the paths of the states they lead to, and those
    /// states are examined in turn (last found first).
    pub fn garbage_collect(&mut self, s: &G)
        requires
            old(self).wf(),
        ensures
            final(self).wf(),
            !final(self).has(s@),
            final(self).kept_from(*old(self)),
            final(self).entries().len() <= old(self).entries().len(),
            forall|x: int| 0 <= x < old(self).entries().len() && !old(self).reaches(s@, old(self).entries()[x].0)
                ==> #[trigger] final(self).holds(old(self).entries()[x]),
            forall|x: int| 0 <= x < old(self).entries().len() && old(self).entries()[x].0 != s@
                && !old(self).pointed(old(self).entries()[x].0)
                ==> #[trigger] final(self).holds(old(self).entries()[x]),
            final(self).entries() == gc_run(old(self).entries(), seq![s@], true),
    {
        let mut to_be_gced: Vec<G> = Vec::new();
        to_be_gced.push(s.copy_state());
        let mut initial = true;
        proof {
            old(self).lemma_reaches_start(s@);
            assert(state_views(to_be_gced@) =~= seq![s@]);
            assert forall|x: int| 0 <= x < self.entries().len() implies #[trigger] old(self).keeps(self.entries()[x]) by {
                assert(old(self).entries()[x].0 == self.entries()[x].0);
            }
            assert forall|x: int| 0 <= x < old(self).entries().len() implies #[trigger] self.holds(old(self).entries()[x]) by {
                assert(self.entries()[x] == old(self).entries()[x]);
            }
        }
        while to_be_gced.len() > 0
            invariant
                self.wf(),
                self.kept_from(*old(self)),
                initial ==> to_be_gced@.len() == 1 && to_be_gced@[0]@ == s@,
                !initial ==> !self.has(s@),
                self.entries().len() <= old(self).entries().len(),
                forall|k: int| 0 <= k < to_be_gced@.len() ==> old(self).reaches(s@, #[trigger] to_be_gced@[k]@),
                forall|x: int| 0 <= x < old(self).entries().len() && !old(self).reaches(s@, old(self).entries()[x].0)
                    ==> #[trigger] self.holds(old(self).entries()[x]),
                gc_run(self.entries(), state_views(to_be_gced@), initial) == gc_run(old(self).entries(), seq![s@], true),
            decreases self.entries().len(), to_be_gced@.len(),
        {
            let ghost queue = to_be_gced@;
            let curr = to_be_gced.pop().unwrap();
            let ghost target = gc_run(old(self).entries(), seq![s@], true);
            proof {
                assert(queue[queue.len() - 1] == curr);
                assert(old(self).reaches(s@, curr@));
                assert(state_views(to_be_gced@) =~= state_views(queue).drop_last());
                assert(state_views(queue).last() == curr@);
                self.lemma_index_in(curr@);
            }
            match self.find(&curr) {
                Some(i) => {
                    if self.0[i].1.paths == 0 || initial {
                        let ghost before = *self;
                        let entry = self.0.remove(i);
                        let old_meta = entry.1;
                        proof {
                            assert(self.entries() =~= before.entries().remove(i as int));
                            assert(self.0@ == before.0@.remove(i as int));
                            assert forall|a: int, b: int| 0 <= a < b < self.0@.len() implies self.0@[a].0@ != self.0@[b].0@ by {
                                let a0 = if a < i { a } else { a + 1 };
                                let b0 = if b < i { b } else { b + 1 };
                                assert(self.0@[a] == before.0@[a0]);
                                assert(self.0@[b] == before.0@[b0]);
                            }
                            assert forall|a: int| 0 <= a < self.0@.len() implies meta_fits(self.0@[a].0, #[trigger] self.0@[a].1) by {
                                let a0 = if a < i { a } else { a + 1 };
                                assert(self.0@[a] == before.0@[a0]);
                                assert(meta_fits(before.0@[a0].0, before.0@[a0].1));
                            }
                            assert forall|x: int| 0 <= x < self.entries().len() implies #[trigger] old(self).keeps(self.entries()[x]) by {
                                let x0 = if x < i { x } else { x + 1 };
                                assert(self.entries()[x] == before.entries()[x0]);
                                assert(old(self).keeps(before.entries()[x0]));
                            }
                            if self.has(s@) {
                                let x = choose|x: int| 0 <= x < self.entries().len() && self.entries()[x].0 == s@;
                                let x0 = if x < i { x } else { x + 1 };
                                assert(self.entries()[x] == before.entries()[x0]);
                                if initial {
                                    assert(before.0@[x0].0@ == s@);
                                    assert(before.0@[i as int].0@ == s@);
                                }
                            }
                            assert forall|x: int| 0 <= x < old(self).entries().len() && !old(self).reaches(s@, old(self).entries()[x].0)
                                implies #[trigger] self.holds(old(self).entries()[x]) by {
                                assert(before.holds(old(self).entries()[x]));
                                let y = choose|y: int| 0 <= y < before.entries().len() && #[trigger] before.entries()[y] == old(self).entries()[x];
                                assert(before.entries()[i as int].0 == curr@);
                                let y1 = if y < i { y } else { y - 1 };
                                assert(self.0@[y1] == before.0@[y]);
                                assert(self.entries()[y1] == before.entries()[y]);
                            }
                            assert(before.entries()[i as int].1 == old_meta@);
                            assert(old(self).keeps(before.entries()[i as int]));
                        }
                        let ghost yw = choose|y: int| 0 <= y < old(self).entries().len()
                            && old(self).entries()[y].0 == before.entries()[i as int].0
                            && same_but_paths(old(self).entries()[y].1, before.entries()[i as int].1);
                        let mut j: usize = 0;
                        while j < old_meta.moves.len()
                            invariant
                                self.wf(),
                                self.kept_from(*old(self)),
                                !self.has(s@),
                                self.entries().len() + 1 == before.entries().len(),
                                j <= old_meta.moves@.len(),
                                self.entries().len() <= old(self).entries().len(),
                                0 <= yw < old(self).entries().len(),
                                old(self).entries()[yw].1.moves == old_meta@.moves,
                                old(self).entries()[yw].0 == curr@,
                                old(self).reaches(s@, curr@),
                                target == gc_run(old(self).entries(), seq![s@], true),
                                gc_run(release_moves(self.entries(), old_meta@.moves, j as int).0,
                                    state_views(to_be_gced@) + release_moves(self.entries(), old_meta@.moves, j as int).1, false) == target,
                                forall|k: int| 0 <= k < to_be_gced@.len() ==> old(self).reaches(s@, #[trigger] to_be_gced@[k]@),
                                forall|x: int| 0 <= x < old(self).entries().len() && !old(self).reaches(s@, old(self).entries()[x].0)
                                    ==> #[trigger] self.holds(old(self).entries()[x]),
                            decreases old_meta.moves@.len() - j,
                        {
                            let ghost cur = self.entries();
                            let ghost q0 = state_views(to_be_gced@);
                            let ghost mv = old_meta@.moves;
                            let touches = old_meta.moves[j].1.1;
                            proof {
                                assert(mv[j as int].2 == touches);
                                self.lemma_index_in(old_meta.moves@[j as int].1.0@);
                            }
                            if touches > 0 {
                                let child = &old_meta.moves[j].1.0;
                                proof {
                                    assert(old_meta@.moves[j as int] == (old_meta.moves@[j as int].0, child@, touches));
                                    assert(old(self).entries()[yw].1.moves[j as int].1 == child@);
                                    assert(old(self).pointed(child@));
                                    assert(old(self).took(curr@, child@));
                                    old(self).lemma_reaches_step(s@, curr@, child@);
                                }
                                match self.find(child) {
                                    Some(ci) => {
                                        let ghost pre = *self;
                                        self.release(ci, touches);
                                        proof {
                                            assert forall|x: int| 0 <= x < self.entries().len() implies #[trigger] old(self).keeps(self.entries()[x]) by {
                                                assert(old(self).keeps(pre.entries()[x]));
                                                let y = choose|y: int| 0 <= y < old(self).entries().len()
                                                    && old(self).entries()[y].0 == pre.entries()[x].0 && same_but_paths(old(self).entries()[y].1, pre.entries()[x].1);
                                                assert(old(self).entries()[y].0 == self.entries()[x].0 && same_but_paths(old(self).entries()[y].1, self.entries()[x].1));
                                            }
                                            if self.has(s@) {
                                                let x = choose|x: int| 0 <= x < self.entries().len() && self.entries()[x].0 == s@;
                                                assert(pre.entries()[x].0 == s@);
                                            }
                                            assert forall|x: int| 0 <= x < old(self).entries().len() && !old(self).reaches(s@, old(self).entries()[x].0)
                                                implies #[trigger] self.holds(old(self).entries()[x]) by {
                                                assert(pre.holds(old(self).entries()[x]));
                                                let y = choose|y: int| 0 <= y < pre.entries().len() && #[trigger] pre.entries()[y] == old(self).entries()[x];
                                                assert(pre.entries()[ci as int].0 == child@);
                                                assert(self.entries()[y] == pre.entries()[y]);
                                            }
                                        }
                                    },
                                    None => {},
                                }
                                proof {
                                    assert(self.entries() =~= released(cur, child@, touches));
                                }
                                to_be_gced.push(child.copy_state());
                                proof {
                                    let r = release_moves(released(cur, child@, touches), mv, j + 1);
                                    assert(release_moves(cur, mv, j as int) == (r.0, seq![child@] + r.1));
                                    assert(state_views(to_be_gced@) =~= q0.push(child@));
                                    assert(q0.push(child@) + r.1 =~= q0 + (seq![child@] + r.1));
                                }
                            } else {
                                proof {
                                    assert(release_moves(cur, mv, j as int) == release_moves(cur, mv, j + 1));
                                }
                            }
                            j += 1;
                        }
                    }
                },
                None => {},
            }
            initial = false;
        }
        proof {
            assert forall|x: int| 0 <= x < old(self).entries().len() && old(self).entries()[x].0 != s@
                && !old(self).pointed(old(self).entries()[x].0)
                implies #[trigger] self.holds(old(self).entries()[x]) by {
                if old(self).reaches(s@, old(self).entries()[x].0) {
                    old(self).lemma_reached_pointed(s@, old(self).entries()[x].0);
                }
            }
        }
    }

    /// Collects the states that the moves of `from` lead to, except `to`: once the game
    /// has moved from `from` to `to`, the other branches are no longer needed.
    pub fn collect_siblings(&mut self, from: &G, to: &G)
        requires
            old(self).wf(),
            old(self).has(from@),
        ensures
            final(self).wf(),
            final(self).kept_from(*old(self)),
            final(self).entries().len() <= old(self).entries().len(),
            forall|x: int| 0 <= x < old(self).entries().len() && !old(self).pointed(old(self).entries()[x].0)
                && (old(self).entries()[x].0 == to@ || !old(self).leads_to(from@, old(self).entries()[x].0))
                ==> #[trigger] final(self).holds(old(self).entries()[x]),
            forall|k: int| 0 <= k < old(self).stats(from@).moves.len() && old(self).stats(from@).moves[k].1 != to@
                ==> !final(self).has(#[trigger] old(self).stats(from@).moves[k].1),
            final(self).entries() == collect_run(old(self).entries(), move_targets::<G>(old(self).stats(from@).moves), to@),
    {
        let children: Vec<G> = match self.find(from) {
            Some(i) => {
                let meta = &self.0[i].1;
                let mut cs: Vec<G> = Vec::new();
                let mut j: usize = 0;
                while j < meta.moves.len()
                    invariant
                        j <= meta.moves@.len(),
                        cs@.len() == j,
                        forall|k: int| 0 <= k < j ==> (#[trigger] cs@[k])@ == meta@.moves[k].1,
                    decreases meta.moves@.len() - j,
                {
                    cs.push(meta.moves[j].1.0.copy_state());
                    j += 1;
                }
                proof {
                    assert(self.entries()[i as int].1 == meta@);
                }
                cs
            },
            None => Vec::new(),
        };
        proof {
            assert forall|x: int| 0 <= x < self.entries().len() implies #[trigger] old(self).keeps(self.entries()[x]) by {
                assert(old(self).entries()[x].0 == self.entries()[x].0);
            }
            assert forall|x: int| 0 <= x < old(self).entries().len() implies #[trigger] self.holds(old(self).entries()[x]) by {
                assert(self.entries()[x] == old(self).entries()[x]);
            }
        }
        let ghost from_moves = old(self).stats(from@).moves;
        let mut j: usize = 0;
        proof {
            assert(move_targets::<G>(from_moves).skip(0) =~= move_targets::<G>(from_moves));
        }
        while j < children.len()
            invariant
                self.wf(),
                self.kept_from(*old(self)),
                j <= children@.len(),
                children@.len() == from_moves.len(),
                from_moves == old(self).stats(from@).moves,
                forall|k: int| 0 <= k < children@.len() ==> (#[trigger] children@[k])@ == from_moves[k].1,
                self.entries().len() <= old(self).entries().len(),
                forall|x: int| 0 <= x < old(self).entries().len() && !old(self).pointed(old(self).entries()[x].0)
                    && (old(self).entries()[x].0 == to@ || !old(self).leads_to(from@, old(self).entries()[x].0))
                    ==> #[trigger] self.holds(old(self).entries()[x]),
                forall|k: int| 0 <= k < j && from_moves[k].1 != to@ ==> !self.has(#[trigger] from_moves[k].1),
                collect_run(self.entries(), move_targets::<G>(from_moves).skip(j as int), to@)
                    == collect_run(old(self).entries(), move_targets::<G>(from_moves), to@),
            decreases children@.len() - j,
        {
            let ghost cur = self.entries();
            if !children[j].same_state(to) {
                let ghost pre = *self;
                self.garbage_collect(&children[j]);
                proof {
                    assert forall|x: int| 0 <= x < self.entries().len() implies #[trigger] old(self).keeps(self.entries()[x]) by {
                        assert(pre.keeps(self.entries()[x]));
                        let y = choose|y: int| 0 <= y < pre.entries().len()
                            && pre.entries()[y].0 == self.entries()[x].0 && same_but_paths(pre.entries()[y].1, self.entries()[x].1);
                        assert(old(self).keeps(pre.entries()[y]));
                    }
                    assert forall|x: int| 0 <= x < old(self).entries().len() && !old(self).pointed(old(self).entries()[x].0)
                        && (old(self).entries()[x].0 == to@ || !old(self).leads_to(from@, old(self).entries()[x].0))
                        implies #[trigger] self.holds(old(self).entries()[x]) by {
                        let v = old(self).entries()[x].0;
                        assert(pre.holds(old(self).entries()[x]));
                        let y = choose|y: int| 0 <= y < pre.entries().len() && #[trigger] pre.entries()[y] == old(self).entries()[x];
                        if v == children@[j as int]@ {
                            assert(old(self).leads_to(from@, v));
                        }
                        if pre.pointed(v) {
                            let (py, pk) = choose|py: int, pk: int|
                                0 <= py < pre.entries().len() && 0 <= pk < pre.entries()[py].1.moves.len()
                                    && #[trigger] pre.entries()[py].1.moves[pk].1 == v && pre.entries()[py].1.moves[pk].2 > 0;
                            assert(old(self).keeps(pre.entries()[py]));
                            let oy = choose|oy: int| 0 <= oy < old(self).entries().len()
                                && old(self).entries()[oy].0 == pre.entries()[py].0 && same_but_paths(old(self).entries()[oy].1, pre.entries()[py].1);
                            assert(old(self).entries()[oy].1.moves[pk].1 == v);
                        }
                        assert(self.holds(pre.entries()[y]));
                    }
                    assert forall|k: int| 0 <= k < j && from_moves[k].1 != to@ implies !self.has(#[trigger] from_moves[k].1) by {
                        let v = from_moves[k].1;
                        if self.has(v) {
                            let x = choose|x: int| 0 <= x < self.entries().len() && self.entries()[x].0 == v;
                            assert(pre.keeps(self.entries()[x]));
                        }
                    }
                }
            }
            proof {
                assert(children@[j as int]@ == from_moves[j as int].1);
                let ts = move_targets::<G>(from_moves).skip(j as int);
                assert(ts[0] == from_moves[j as int].1);
                assert(ts.drop_first() =~= move_targets::<G>(from_moves).skip(j + 1));
                if from_moves[j as int].1 != to@ {
                    assert(self.entries() == gc_run(cur, seq![ts[0]], true));
                }
            }
            j += 1;
        }
    }
}

/// The statistics with one more playout counted for the `k`-th move.
pub open spec fn with_touch<G: GameState>(m: MetaView<G>, k: int) -> MetaView<G> {
    MetaView {
        moves: m.moves.update(k, (m.moves[k].0, m.moves[k].1, vstd::wrapping::usize_specs::wrapping_add(m.moves[k].2, 1))),
        ..m
    }
}

/// The statistics with one more playout and path and the scores `d` added.
pub open spec fn with_result<G: GameState>(m: MetaView<G>, d: Seq<(G::Player, Score)>) -> MetaView<G> {
    MetaView {
        scoreboard: add_boards(m.scoreboard, d),
        playouts: vstd::wrapping::u32_specs::wrapping_add(m.playouts, 1),
        paths: vstd::wrapping::usize_specs::wrapping_add(m.paths, 1),
        ..m
    }
}

/// How many times the state `v` occurs on the line `path`.
pub open spec fn visits_in<V>(path: Seq<V>, v: V) -> nat
    decreases path.len(),
{
    if path.len() == 0 {
        0
    } else {
        (if path[0] == v { 1nat } else { 0nat }) + visits_in(path.drop_first(), v)
    }
}

/// How many times the line `path` takes the `k`-th move of the state `v`, where `ks`
/// holds the position of the move taken at each step.
pub open spec fn takes_in<V>(path: Seq<V>, ks: Seq<int>, v: V, k: int) -> nat
    decreases ks.len(),
{
    if ks.len() == 0 || path.len() == 0 {
        0
    } else {
        (if path[0] == v && ks[0] == k { 1nat } else { 0nat }) + takes_in(path.drop_first(), ks.drop_first(), v, k)
    }
}

/// `a` plus `n`, in `u32` arithmetic that wraps around.
pub open spec fn add_u32(a: u32, n: nat) -> u32
    decreases n,
{
    if n == 0 { a } else { vstd::wrapping::u32_specs::wrapping_add(add_u32(a, (n - 1) as nat), 1) }
}

/// `a` plus `n`, in `usize` arithmetic that wraps around.
pub open spec fn add_usize(a: usize, n: nat) -> usize
    decreases n,
{
    if n == 0 { a } else { vstd::wrapping::usize_specs::wrapping_add(add_usize(a, (n - 1) as nat), 1) }
}

/// The board `b` with the scores `d` added `n` times.
pub open spec fn add_times<P>(b: Seq<(P, Score)>, d: Seq<(P, Score)>, n: nat) -> Seq<(P, Score)>
    decreases n,
{
    if n == 0 { b } else { add_boards(add_times(b, d, (n - 1) as nat), d) }
}

/// The statistics `m` of the state `v` after a playout along `path`, taking the moves
/// at positions `ks` and backing up the scores `d`: one more playout and path and the
/// scores added for each visit of `v`, one more touch of a move each time it is taken.
pub open spec fn bumped<G: GameState>(m: MetaView<G>, path: Seq<G::V>, ks: Seq<int>, d: Seq<(G::Player, Score)>, v: G::V) -> MetaView<G> {
    let n = visits_in(path, v);
    MetaView {
        scoreboard: add_times(m.scoreboard, d, n),
        playouts: add_u32(m.playouts, n),
        paths: add_usize(m.paths, n),
        moves: Seq::new(m.moves.len(), |k: int| (m.moves[k].0, m.moves[k].1, add_usize(m.moves[k].2, takes_in(path, ks, v, k)))),
    }
}

/// The scores a playout backs up from the state `v` where it ends: the game's scores
/// if it is over, zero for everyone otherwise.
pub open spec fn end_scores<G: GameState>(v: G::V) -> Seq<(G::Player, Score)> {
    let g = choose|g: G| g@ == v;
    if g.over() { g.final_scores() } else { zero_board::<G>() }
}

proof fn lemma_add_u32(a: u32, x: nat, y: nat)
    ensures
        add_u32(add_u32(a, x), y) == add_u32(a, x + y),
    decreases y,
{
    if y > 0 {
        lemma_add_u32(a, x, (y - 1) as nat);
        assert((x + y - 1) as nat == x + (y - 1) as nat);
    }
}

proof fn lemma_add_usize(a: usize, x: nat, y: nat)
    ensures
        add_usize(add_usize(a, x), y) == add_usize(a, x + y),
    decreases y,
{
    if y > 0 {
        lemma_add_usize(a, x, (y - 1) as nat);
        assert((x + y - 1) as nat == x + (y - 1) as nat);
    }
}

proof fn lemma_counts_cons<V>(s: V, p: Seq<V>, k: int, ks: Seq<int>, v: V, j: int)
    ensures
        visits_in(seq![s] + p, v) == (if s == v { 1nat } else { 0nat }) + visits_in(p, v),
        takes_in(seq![s] + p, seq![k] + ks, v, j) == (if s == v && k == j { 1nat } else { 0nat }) + takes_in(p, ks, v, j),
{
    assert((seq![s] + p).drop_first() =~= p);
    assert((seq![k] + ks).drop_first() =~= ks);
    assert((seq![s] + p)[0] == s);
    assert((seq![k] + ks)[0] == k);
}

/// A playout that took the `k`-th move of `s` and went on along `p`, seen from one state
/// `v`: the touch before, the rest of the playout, and the result recorded for `s` after.
proof fn lemma_bumped_step<G: GameState>(m: MetaView<G>, s: G::V, k: int, p: Seq<G::V>, ks: Seq<int>, d: Seq<(G::Player, Score)>, v: G::V)
    requires
        v == s ==> 0 <= k < m.moves.len(),
    ensures
        v == s ==> with_result(bumped(with_touch(m, k), p, ks, d, s), d) == bumped(m, seq![s] + p, seq![k] + ks, d, s),
        v != s ==> bumped(m, p, ks, d, v) == bumped(m, seq![s] + p, seq![k] + ks, d, v),
{
    let path = seq![s] + p;
    let kp = seq![k] + ks;
    lemma_counts_cons(s, p, k, ks, v, 0);
    let n = visits_in(p, v);
    if v == s {
        let a = with_result(bumped(with_touch(m, k), p, ks, d, s), d);
        let b = bumped(m, path, kp, d, s);
        lemma_add_u32(m.playouts, n, 1);
        lemma_add_usize(m.paths, n, 1);
        assert(add_u32(add_u32(m.playouts, n), 1) == vstd::wrapping::u32_specs::wrapping_add(add_u32(m.playouts, n), 1));
        assert(add_usize(add_usize(m.paths, n), 1) == vstd::wrapping::usize_specs::wrapping_add(add_usize(m.paths, n), 1));
        assert(add_times(m.scoreboard, d, n + 1) == add_boards(add_times(m.scoreboard, d, n), d));
        assert forall|j: int| 0 <= j < m.moves.len() implies a.moves[j] == b.moves[j] by {
            lemma_counts_cons(s, p, k, ks, v, j);
            let t = takes_in(p, ks, s, j);
            if j == k {
                lemma_add_usize(m.moves[j].2, 1, t);
                assert(add_usize(m.moves[j].2, 0) == m.moves[j].2);
                assert(add_usize(m.moves[j].2, 1) == vstd::wrapping::usize_specs::wrapping_add(m.moves[j].2, 1));
            }
        }
        assert(a.moves =~= b.moves);
        assert(a =~= b);
    } else {
        let a = bumped(m, p, ks, d, v);
        let b = bumped(m, path, kp, d, v);
        assert forall|j: int| 0 <= j < m.moves.len() implies a.moves[j] == b.moves[j] by {
            lemma_counts_cons(s, p, k, ks, v, j);
        }
        assert(a.moves =~= b.moves);
        assert(a =~= b);
    }
}

/// A playout that ended in `s` at once, seen from one state `v`.
proof fn lemma_bumped_end<G: GameState>(m: MetaView<G>, s: G::V, d: Seq<(G::Player, Score)>, v: G::V)
    ensures
        v == s ==> with_result(m, d) == bumped(m, seq![s], Seq::<int>::empty(), d, s),
        v != s ==> m == bumped(m, seq![s], Seq::<int>::empty(), d, v),
{
    lemma_counts_cons(s, Seq::<G::V>::empty(), 0, Seq::<int>::empty(), v, 0);
    assert(seq![s] + Seq::<G::V>::empty() =~= seq![s]);
    let b = bumped(m, seq![s], Seq::<int>::empty(), d, v);
    assert(b.moves =~= m.moves);
    if v == s {
        assert(add_u32(m.playouts, 0) == m.playouts);
        assert(add_usize(m.paths, 0) == m.paths);
        assert(add_times(m.scoreboard, d, 0) == m.scoreboard);
        assert(add_u32(m.playouts, 1) == vstd::wrapping::u32_specs::wrapping_add(m.playouts, 1));
        assert(add_usize(m.paths, 1) == vstd::wrapping::usize_specs::wrapping_add(m.paths, 1));
        assert(add_times(m.scoreboard, d, 1) == add_boards(m.scoreboard, d));
        assert(with_result(m, d) =~= b);
    } else {
        assert(m =~= b);
    }
}

/// `select`, called on some statistics, named the position `k` among others.
pub open spec fn picked_from<F: Fn(&Vec<UcbStats>) -> Vec<usize>>(select: &F, cs: Seq<UcbStats>, k: int) -> bool {
    exists|c: Vec<UcbStats>, picks: Vec<usize>| #![trigger select.ensures((&c,), picks)]
        select.ensures((&c,), picks) && c@ == cs && 0 <= k && picks@.contains(k as usize)
}

/// `select`, called on the statistics `cs`, named no position below `n`.
pub open spec fn picks_none_from<F: Fn(&Vec<UcbStats>) -> Vec<usize>>(select: &F, cs: Seq<UcbStats>, n: int) -> bool {
    exists|c: Vec<UcbStats>, picks: Vec<usize>| #![trigger select.ensures((&c,), picks)]
        select.ensures((&c,), picks) && c@ == cs && forall|t: int| 0 <= t < picks@.len() ==> #[trigger] picks@[t] >= n
}

/// The player to move in the state `v`.
pub open spec fn player_of<G: GameState>(v: G::V) -> G::Player {
    (choose|g: G| g@ == v).to_move()
}

/// Every player scores zero on a board of zeros.
pub proof fn lemma_zero_score<G: GameState>(p: G::Player)
    ensures
        score_of(zero_board::<G>(), p) == 0,
{
    lemma_zero_board_score(zero_board::<G>(), p);
}

proof fn lemma_zero_board_score<P>(b: Seq<(P, Score)>, p: P)
    requires
        forall|j: int| 0 <= j < b.len() ==> (#[trigger] b[j]).1 == 0,
    ensures
        score_of(b, p) == 0,
    decreases b.len(),
{
    if b.len() > 0 {
        assert(b[0].1 == 0);
        assert forall|j: int| 0 <= j < b.drop_first().len() implies (#[trigger] b.drop_first()[j]).1 == 0 by {
            assert(b.drop_first()[j] == b[j + 1]);
        }
        lemma_zero_board_score(b.drop_first(), p);
    }
}

/// The entry `e` is a state first recorded fresh, then counted by a playout along `path`
/// that took the moves `ks` and backed up the scores `d`.
pub open spec fn fresh_bumped<G: GameState>(e: (G::V, MetaView<G>), path: Seq<G::V>, ks: Seq<int>, d: Seq<(G::Player, Score)>) -> bool {
    exists|m: MetaView<G>| fresh_for::<G>(e.0, m) && e.1 == bumped(m, path, ks, d, e.0)
}

/// The position of the entry for the state `v` in the entries `e`, `-1` when there is none.
pub open spec fn index_in<G: GameState>(e: Seq<(G::V, MetaView<G>)>, v: G::V) -> int {
    if exists|i: int| 0 <= i < e.len() && e[i].0 == v {
        choose|i: int| 0 <= i < e.len() && e[i].0 == v
    } else {
        -1
    }
}

/// The entries `e` with `n` paths taken off the count of the state `v`, if it has an entry
/// (`usize` arithmetic that wraps around).
pub open spec fn released<G: GameState>(e: Seq<(G::V, MetaView<G>)>, v: G::V, n: usize) -> Seq<(G::V, MetaView<G>)> {
    let i = index_in(e, v);
    if 0 <= i < e.len() {
        e.update(i, (e[i].0, MetaView::<G> { paths: vstd::wrapping::usize_specs::wrapping_sub(e[i].1.paths, n), ..e[i].1 }))
    } else {
        e
    }
}

/// What garbage collection does with the moves `ms` of a removed state, from the `j`-th
/// on: each move that playouts took gives their number back off the paths of the state it
/// leads to, and that state is queued to be examined; the entries after that, and the
/// queued states in order.
pub open spec fn release_moves<G: GameState>(e: Seq<(G::V, MetaView<G>)>, ms: Seq<(G::Move, G::V, usize)>, j: int)
    -> (Seq<(G::V, MetaView<G>)>, Seq<G::V>)
    decreases ms.len() - j,
{
    if j < 0 || j >= ms.len() {
        (e, Seq::empty())
    } else if ms[j].2 > 0 {
        let r = release_moves(released(e, ms[j].1, ms[j].2), ms, j + 1);
        (r.0, seq![ms[j].1] + r.1)
    } else {
        release_moves(e, ms, j + 1)
    }
}

/// Releasing moves keeps the number of entries.
pub proof fn lemma_release_moves_len<G: GameState>(e: Seq<(G::V, MetaView<G>)>, ms: Seq<(G::Move, G::V, usize)>, j: int)
    ensures
        release_moves(e, ms, j).0.len() == e.len(),
    decreases ms.len() - j,
{
    if 0 <= j < ms.len() {
        if ms[j].2 > 0 {
            lemma_release_moves_len(released(e, ms[j].1, ms[j].2), ms, j + 1);
        } else {
            lemma_release_moves_len(e, ms, j + 1);
        }
    }
}

/// Garbage collection on the entries `e` with the states `stack` left to examine (the
/// last first), `initial` while the first, the state to collect, is examined: a state is
/// removed when it has an entry whose count of paths is zero, or is the first; its moves
/// are then released (`release_moves`) and the states they lead to queued.
pub open spec fn gc_run<G: GameState>(e: Seq<(G::V, MetaView<G>)>, stack: Seq<G::V>, initial: bool) -> Seq<(G::V, MetaView<G>)>
    decreases e.len(), stack.len(),
{
    if stack.len() == 0 {
        e
    } else {
        let curr = stack.last();
        let rest = stack.drop_last();
        let i = index_in(e, curr);
        if 0 <= i < e.len() && (e[i].1.paths == 0 || initial) {
            let r = release_moves(e.remove(i), e[i].1.moves, 0);
            proof {
                lemma_release_moves_len(e.remove(i), e[i].1.moves, 0);
            }
            gc_run(r.0, rest + r.1, false)
        } else {
            gc_run(e, rest, false)
        }
    }
}

/// The states of a list of game states.
pub open spec fn state_views<G: GameState>(q: Seq<G>) -> Seq<G::V> {
    q.map_values(|g: G| g@)
}

/// The states that the moves `ms` lead to, in order.
pub open spec fn move_targets<G: GameState>(ms: Seq<(G::Move, G::V, usize)>) -> Seq<G::V> {
    ms.map_values(|m: (G::Move, G::V, usize)| m.1)
}

/// Garbage collection (`gc_run`) of each of the states `cs` in turn, except `to`.
pub open spec fn collect_run<G: GameState>(e: Seq<(G::V, MetaView<G>)>, cs: Seq<G::V>, to: G::V) -> Seq<(G::V, MetaView<G>)>
    decreases cs.len(),
{
    if cs.len() == 0 {
        e
    } else {
        let e1 = if cs[0] != to { gc_run(e, seq![cs[0]], true) } else { e };
        collect_run(e1, cs.drop_first(), to)
    }
}

/// No two entries of `e` are for the same state.
pub open spec fn distinct_states<G: GameState>(e: Seq<(G::V, MetaView<G>)>) -> bool {
    forall|a: int, b: int| 0 <= a < b < e.len() ==> e[a].0 != e[b].0
}

/// The playouts that took moves of `ms` (from the `j`-th on) leading to the state `c`.
pub open spec fn touches_to<G: GameState>(ms: Seq<(G::Move, G::V, usize)>, c: G::V, j: int) -> nat
    decreases ms.len() - j,
{
    if j < 0 || j >= ms.len() {
        0
    } else {
        (if ms[j].1 == c { ms[j].2 as nat } else { 0 }) + touches_to::<G>(ms, c, j + 1)
    }
}

/// No playout took a move of any entry of `e` into the state `c`.
pub open spec fn untouched<G: GameState>(e: Seq<(G::V, MetaView<G>)>, c: G::V) -> bool {
    forall|x: int, k: int| 0 <= x < e.len() && 0 <= k < e[x].1.moves.len() && #[trigger] e[x].1.moves[k].1 == c
        ==> e[x].1.moves[k].2 == 0
}

/// The state `c` has an entry in `e`.
pub open spec fn holds_state<G: GameState>(e: Seq<(G::V, MetaView<G>)>, c: G::V) -> bool {
    exists|x: int| 0 <= x < e.len() && #[trigger] e[x].0 == c
}

proof fn lemma_index_unique<G: GameState>(e: Seq<(G::V, MetaView<G>)>, a: int)
    requires
        distinct_states::<G>(e),
        0 <= a < e.len(),
    ensures
        index_in::<G>(e, e[a].0) == a,
{
    let v = e[a].0;
    assert(exists|i: int| 0 <= i < e.len() && e[i].0 == v);
    let i = index_in::<G>(e, v);
    if i != a {
        if i < a {
            assert(e[i].0 != e[a].0);
        } else {
            assert(e[a].0 != e[i].0);
        }
    }
}

/// Releasing moves keeps every entry's state and moves, at its place.
proof fn lemma_release_moves_keeps<G: GameState>(e: Seq<(G::V, MetaView<G>)>, ms: Seq<(G::Move, G::V, usize)>, j: int)
    requires
        distinct_states::<G>(e),
    ensures
        release_moves(e, ms, j).0.len() == e.len(),
        forall|x: int| 0 <= x < e.len() ==> (#[trigger] release_moves(e, ms, j).0[x]).0 == e[x].0
            && release_moves(e, ms, j).0[x].1.moves == e[x].1.moves,
        distinct_states::<G>(release_moves(e, ms, j).0),
    decreases ms.len() - j,
{
    if 0 <= j < ms.len() {
        if ms[j].2 > 0 {
            let e1 = released(e, ms[j].1, ms[j].2);
            assert(e1.len() == e.len());
            assert forall|x: int| 0 <= x < e.len() implies (#[trigger] e1[x]).0 == e[x].0 && e1[x].1.moves == e[x].1.moves by {
            }
            assert(distinct_states::<G>(e1)) by {
                assert forall|a: int, b: int| 0 <= a < b < e1.len() implies e1[a].0 != e1[b].0 by {
                    assert(e1[a].0 == e[a].0);
                    assert(e1[b].0 == e[b].0);
                }
            }
            lemma_release_moves_keeps(e1, ms, j + 1);
        } else {
            lemma_release_moves_keeps(e, ms, j + 1);
        }
    }
}

/// Releasing moves takes off the count of paths of the state `c` the playouts that took
/// moves into it, and queues `c` if any did.
proof fn lemma_release_moves_to<G: GameState>(e: Seq<(G::V, MetaView<G>)>, ms: Seq<(G::Move, G::V, usize)>, j: int, ic: int)
    requires
        distinct_states::<G>(e),
        0 <= ic < e.len(),
        e[ic].1.paths >= touches_to::<G>(ms, e[ic].0, j),
    ensures
        release_moves(e, ms, j).0[ic].1.paths == e[ic].1.paths - touches_to::<G>(ms, e[ic].0, j),
        touches_to::<G>(ms, e[ic].0, j) > 0 ==> release_moves(e, ms, j).1.contains(e[ic].0),
    decreases ms.len() - j,
{
    let c = e[ic].0;
    if 0 <= j < ms.len() {
        if ms[j].2 > 0 {
            let e1 = released(e, ms[j].1, ms[j].2);
            if ms[j].1 == c {
                lemma_index_unique::<G>(e, ic);
            } else if holds_state::<G>(e, ms[j].1) {
                let a = choose|x: int| 0 <= x < e.len() && #[trigger] e[x].0 == ms[j].1;
                lemma_index_unique::<G>(e, a);
            }
            assert(e1[ic].0 == c);
            assert(distinct_states::<G>(e1)) by {
                assert forall|a: int, b: int| 0 <= a < b < e1.len() implies e1[a].0 != e1[b].0 by {
                    assert(e1[a].0 == e[a].0);
                    assert(e1[b].0 == e[b].0);
                }
            }
            lemma_release_moves_to(e1, ms, j + 1, ic);
            let r = release_moves(e1, ms, j + 1);
            if ms[j].1 == c {
                assert((seq![ms[j].1] + r.1)[0] == c);
            } else if touches_to::<G>(ms, c, j) > 0 {
                let t = choose|t: int| 0 <= t < r.1.len() && r.1[t] == c;
                assert((seq![ms[j].1] + r.1)[t + 1] == c);
            }
        } else {
            lemma_release_moves_to(e, ms, j + 1, ic);
        }
    }
}

proof fn lemma_untouched_sum<G: GameState>(ms: Seq<(G::Move, G::V, usize)>, c: G::V, j: int)
    requires
        forall|k: int| 0 <= k < ms.len() && #[trigger] ms[k].1 == c ==> ms[k].2 == 0,
    ensures
        touches_to::<G>(ms, c, j) == 0,
    decreases ms.len() - j,
{
    if 0 <= j < ms.len() {
        lemma_untouched_sum::<G>(ms, c, j + 1);
    }
}

/// Garbage collection never adds a state.
proof fn lemma_gc_run_states<G: GameState>(e: Seq<(G::V, MetaView<G>)>, st: Seq<G::V>, initial: bool, c: G::V)
    requires
        distinct_states::<G>(e),
        !holds_state::<G>(e, c),
    ensures
        !holds_state::<G>(gc_run(e, st, initial), c),
    decreases e.len(), st.len(),
{
    if st.len() > 0 {
        let curr = st.last();
        let rest = st.drop_last();
        let i = index_in::<G>(e, curr);
        if 0 <= i < e.len() && (e[i].1.paths == 0 || initial) {
            let e1 = e.remove(i);
            assert(distinct_states::<G>(e1)) by {
                assert forall|a: int, b: int| 0 <= a < b < e1.len() implies e1[a].0 != e1[b].0 by {
                    let a0 = if a < i { a } else { a + 1 };
                    let b0 = if b < i { b } else { b + 1 };
                    assert(e1[a] == e[a0]);
                    assert(e1[b] == e[b0]);
                }
            }
            assert(!holds_state::<G>(e1, c)) by {
                if holds_state::<G>(e1, c) {
                    let x = choose|x: int| 0 <= x < e1.len() && #[trigger] e1[x].0 == c;
                    let x0 = if x < i { x } else { x + 1 };
                    assert(e1[x] == e[x0]);
                }
            }
            let r = release_moves(e1, e[i].1.moves, 0);
            lemma_release_moves_keeps(e1, e[i].1.moves, 0);
            lemma_release_moves_len(e1, e[i].1.moves, 0);
            assert(!holds_state::<G>(r.0, c)) by {
                if holds_state::<G>(r.0, c) {
                    let x = choose|x: int| 0 <= x < r.0.len() && #[trigger] r.0[x].0 == c;
                    assert(e1[x].0 == c);
                }
            }
            lemma_gc_run_states(r.0, rest + r.1, false, c);
        } else {
            lemma_gc_run_states(e, rest, false, c);
        }
    }
}

/// A queued state that has no path left and that no remaining playout enters is collected.
proof fn lemma_gc_run_collects<G: GameState>(e: Seq<(G::V, MetaView<G>)>, st: Seq<G::V>, c: G::V, ic: int)
    requires
        distinct_states::<G>(e),
        0 <= ic < e.len(),
        e[ic].0 == c,
        e[ic].1.paths == 0,
        untouched::<G>(e, c),
        st.contains(c),
    ensures
        !holds_state::<G>(gc_run(e, st, false), c),
    decreases e.len(), st.len(),
{
    let curr = st.last();
    let rest = st.drop_last();
    let i = index_in::<G>(e, curr);
    if curr == c {
        lemma_index_unique::<G>(e, ic);
        let e1 = e.remove(ic);
        assert(distinct_states::<G>(e1)) by {
            assert forall|a: int, b: int| 0 <= a < b < e1.len() implies e1[a].0 != e1[b].0 by {
                let a0 = if a < ic { a } else { a + 1 };
                let b0 = if b < ic { b } else { b + 1 };
                assert(e1[a] == e[a0]);
                assert(e1[b] == e[b0]);
            }
        }
        assert(!holds_state::<G>(e1, c)) by {
            if holds_state::<G>(e1, c) {
                let x = choose|x: int| 0 <= x < e1.len() && #[trigger] e1[x].0 == c;
                let x0 = if x < ic { x } else { x + 1 };
                assert(e1[x] == e[x0]);
            }
        }
        let r = release_moves(e1, e[ic].1.moves, 0);
        lemma_release_moves_keeps(e1, e[ic].1.moves, 0);
        lemma_release_moves_len(e1, e[ic].1.moves, 0);
        assert(!holds_state::<G>(r.0, c)) by {
            if holds_state::<G>(r.0, c) {
                let x = choose|x: int| 0 <= x < r.0.len() && #[trigger] r.0[x].0 == c;
                assert(e1[x].0 == c);
            }
        }
        lemma_gc_run_states(r.0, rest + r.1, false, c);
    } else {
        let t = choose|t: int| 0 <= t < st.len() && st[t] == c;
        assert(t < st.len() - 1);
        assert(rest[t] == c);
        assert(rest.contains(c));
        if 0 <= i < e.len() && e[i].1.paths == 0 {
            let e1 = e.remove(i);
            assert(e[i].0 == curr);
            assert(i != ic);
            let ic1 = if ic < i { ic } else { ic - 1 };
            assert(e1[ic1] == e[ic]);
            assert(distinct_states::<G>(e1)) by {
                assert forall|a: int, b: int| 0 <= a < b < e1.len() implies e1[a].0 != e1[b].0 by {
                    let a0 = if a < i { a } else { a + 1 };
                    let b0 = if b < i { b } else { b + 1 };
                    assert(e1[a] == e[a0]);
                    assert(e1[b] == e[b0]);
                }
            }
            let ms = e[i].1.moves;
            assert forall|k: int| 0 <= k < ms.len() && #[trigger] ms[k].1 == c implies ms[k].2 == 0 by {
                assert(e[i].1.moves[k].1 == c);
            }
            lemma_untouched_sum::<G>(ms, c, 0);
            let r = release_moves(e1, ms, 0);
            lemma_release_moves_keeps(e1, ms, 0);
            lemma_release_moves_len(e1, ms, 0);
            lemma_release_moves_to(e1, ms, 0, ic1);
            assert(untouched::<G>(r.0, c)) by {
                assert forall|x: int, k: int| 0 <= x < r.0.len() && 0 <= k < r.0[x].1.moves.len() && #[trigger] r.0[x].1.moves[k].1 == c
                    implies r.0[x].1.moves[k].2 == 0 by {
                    let x0 = if x < i { x } else { x + 1 };
                    assert(r.0[x].1.moves == e1[x].1.moves);
                    assert(e1[x] == e[x0]);
                    assert(e[x0].1.moves[k].1 == c);
                }
            }
            assert((rest + r.1)[t] == c);
            lemma_gc_run_collects(r.0, rest + r.1, c, ic1);
        } else {
            lemma_gc_run_collects(e, rest, c, ic);
        }
    }
}

/// Collecting the state `s` also collects a state `c` that only `s`'s playouts entered:
/// when the playouts that took moves of `s` into `c` are all of `c`'s paths (and there
/// are some), and no other state's moves into `c` were taken, `c` is removed along with
/// `s`. So each removed move gives back to the state it leads to exactly the number of
/// playouts that took it.
pub proof fn lemma_gc_collects_sole_child<G: GameState>(e: Seq<(G::V, MetaView<G>)>, is: int, ic: int)
    requires
        distinct_states::<G>(e),
        0 <= is < e.len(),
        0 <= ic < e.len(),
        is != ic,
        touches_to::<G>(e[is].1.moves, e[ic].0, 0) > 0,
        e[ic].1.paths == touches_to::<G>(e[is].1.moves, e[ic].0, 0),
        forall|x: int, k: int| 0 <= x < e.len() && x != is && 0 <= k < e[x].1.moves.len()
            && #[trigger] e[x].1.moves[k].1 == e[ic].0 ==> e[x].1.moves[k].2 == 0,
    ensures
        !holds_state::<G>(gc_run(e, seq![e[is].0], true), e[ic].0),
{
    let s = e[is].0;
    let c = e[ic].0;
    lemma_index_unique::<G>(e, is);
    let st = seq![s];
    assert(st.last() == s);
    assert(st.drop_last() =~= Seq::<G::V>::empty());
    let e1 = e.remove(is);
    let ic1 = if ic < is { ic } else { ic - 1 };
    assert(e1[ic1] == e[ic]);
    assert(distinct_states::<G>(e1)) by {
        assert forall|a: int, b: int| 0 <= a < b < e1.len() implies e1[a].0 != e1[b].0 by {
            let a0 = if a < is { a } else { a + 1 };
            let b0 = if b < is { b } else { b + 1 };
            assert(e1[a] == e[a0]);
            assert(e1[b] == e[b0]);
        }
    }
    let ms = e[is].1.moves;
    let r = release_moves(e1, ms, 0);
    lemma_release_moves_keeps(e1, ms, 0);
    lemma_release_moves_len(e1, ms, 0);
    lemma_release_moves_to(e1, ms, 0, ic1);
    assert(r.0[ic1].0 == c);
    assert(r.0[ic1].1.paths == 0);
    assert(untouched::<G>(r.0, c)) by {
        assert forall|x: int, k: int| 0 <= x < r.0.len() && 0 <= k < r.0[x].1.moves.len() && #[trigger] r.0[x].1.moves[k].1 == c
            implies r.0[x].1.moves[k].2 == 0 by {
            let x0 = if x < is { x } else { x + 1 };
            assert(r.0[x].1.moves == e1[x].1.moves);
            assert(e1[x] == e[x0]);
            assert(e[x0].1.moves[k].1 == c);
        }
    }
    assert(Seq::<G::V>::empty() + r.1 =~= r.1);
    lemma_gc_run_collects(r.0, Seq::<G::V>::empty() + r.1, c, ic1);
    assert(gc_run(e, st, true) == gc_run(r.0, Seq::<G::V>::empty() + r.1, false));
}

} // verus!
