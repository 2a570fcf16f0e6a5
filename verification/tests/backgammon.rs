use game_trees::game::backgammon::{
    all_homeboard, all_loc, any_loc, board, flip, homeboard, legal_move, legal_sequences, Backgammon, Location,
    Point, StackHeight, State,
};
use game_trees::game::GameState;

fn counts_with(white: &[(usize, u8)], black: &[(usize, u8)]) -> Vec<(StackHeight, StackHeight)> {
    let mut v = vec![(StackHeight(0), StackHeight(0)); 26];
    for &(i, n) in white {
        v[i].0 = StackHeight(n);
    }
    for &(i, n) in black {
        v[i].1 = StackHeight(n);
    }
    v
}

fn total(s: &State, white: bool) -> u32 {
    s.counts.iter().map(|c| if white { (c.0).0 as u32 } else { (c.1).0 as u32 }).sum()
}

#[test]
fn board_lists_the_24_points_in_order() {
    let b = board();
    assert_eq!(b.len(), 24);
    assert_eq!(b[0], Location::Board(Point(1)));
    assert_eq!(b[23], Location::Board(Point(24)));
}

#[test]
fn homeboard_of_each_player() {
    let black = homeboard(false);
    assert_eq!(
        black,
        vec![
            Location::Board(Point(1)),
            Location::Board(Point(2)),
            Location::Board(Point(3)),
            Location::Board(Point(4)),
            Location::Board(Point(5)),
            Location::Board(Point(6)),
            Location::Home
        ]
    );
    let white = homeboard(true);
    assert_eq!(white[0], Location::Board(Point(24)));
    assert_eq!(white[5], Location::Board(Point(19)));
    assert_eq!(white[6], Location::Home);
}

#[test]
fn flip_mirrors_points_and_keeps_bar_and_home() {
    assert_eq!(flip(Location::Board(Point(1))), Location::Board(Point(24)));
    assert_eq!(flip(Location::Board(Point(13))), Location::Board(Point(12)));
    assert_eq!(flip(Location::Bar), Location::Bar);
    assert_eq!(flip(Location::Home), Location::Home);
}

#[test]
fn location_index_follows_the_table() {
    assert_eq!(usize::from(Location::Board(Point(7))), 7);
    assert_eq!(usize::from(Location::Bar), 0);
    assert_eq!(usize::from(Location::Home), 25);
}

#[test]
fn starting_position() {
    let s = Backgammon::new();
    assert!(s.player);
    assert!(s.roll_turn());
    assert_eq!(s.dice, (0, 0));
    assert_eq!(s.counts.len(), 26);
    assert_eq!(s.counts[1], (StackHeight(2), StackHeight(0)));
    assert_eq!(s.counts[6], (StackHeight(0), StackHeight(5)));
    assert_eq!(s.counts[12], (StackHeight(5), StackHeight(0)));
    assert_eq!(s.counts[13], (StackHeight(0), StackHeight(5)));
    assert_eq!(s.counts[24], (StackHeight(0), StackHeight(2)));
    assert_eq!(total(&s, true), 15);
    assert_eq!(total(&s, false), 15);
    assert!(any_loc(Location::Board(Point(19)), true, &s));
    assert!(!any_loc(Location::Board(Point(19)), false, &s));
    assert!(!all_loc(Location::Home, true, &s));
    assert!(!all_homeboard(true, &s));
    assert!(!Backgammon::finished(&s));
    assert_eq!(Backgammon::scores(&s), None);
}

#[test]
fn players_and_current_player() {
    assert_eq!(Backgammon::players(), vec![None, Some(false), Some(true)]);
    let mut s = Backgammon::new();
    assert_eq!(Backgammon::current_player(&s), None);
    Backgammon::apply(&mut s, Err((3, 1)));
    assert_eq!(Backgammon::current_player(&s), Some(true));
    assert_eq!(s.dice, (3, 1));
}

#[test]
fn the_dice_turn_offers_the_21_throws() {
    let s = Backgammon::new();
    let ms = Backgammon::legal_moves(&s);
    assert_eq!(ms.len(), 21);
    assert_eq!(ms[0], Err((1, 1)));
    assert_eq!(ms[1], Err((2, 1)));
    assert_eq!(ms[2], Err((2, 2)));
    assert_eq!(ms[20], Err((6, 6)));
}

#[test]
fn opening_three_one_plays_use_both_dice_sorted_and_once() {
    let mut s = Backgammon::new();
    Backgammon::apply(&mut s, Err((3, 1)));
    let ms = Backgammon::legal_moves(&s);
    assert!(!ms.is_empty());
    for m in &ms {
        let v = m.as_ref().unwrap();
        assert_eq!(v.iter().map(|&(_, n)| n as u32).sum::<u32>(), 4);
        assert!(v.windows(2).all(|w| w[0] <= w[1]));
    }
    assert!(ms.windows(2).all(|w| w[0] < w[1]));
    assert!(ms.contains(&Ok(vec![(Location::Board(Point(1)), 1), (Location::Board(Point(2)), 3)])));
    assert!(ms.contains(&Ok(vec![(Location::Board(Point(17)), 1), (Location::Board(Point(19)), 3)])));
    assert!(!ms.contains(&Ok(vec![(Location::Board(Point(1)), 1)])));
}

#[test]
fn legal_move_checks_source_target_and_bar() {
    let mut s = Backgammon::new();
    Backgammon::apply(&mut s, Err((6, 5)));
    assert!(legal_move(&(Location::Board(Point(1)), 6), &s));
    // point 6 + 1 = 7 is free but white has no checker on 2
    assert!(!legal_move(&(Location::Board(Point(2)), 5), &s));
    // 1 + 5 = 6 holds five black checkers
    assert!(!legal_move(&(Location::Board(Point(1)), 5), &s));
    let mut counts = counts_with(&[(0, 1), (12, 14)], &[(24, 15)]);
    counts[3].1 = StackHeight(0);
    let barred = State::from_parts(true, false, counts, (3, 1));
    assert!(!legal_move(&(Location::Board(Point(12)), 1), &barred));
    assert!(legal_move(&(Location::Bar, 3), &barred));
}

#[test]
fn a_play_that_lands_on_a_lone_checker_hits_it() {
    let counts = counts_with(&[(1, 15)], &[(4, 1), (24, 14)]);
    let mut s = State::from_parts(true, false, counts, (3, 1));
    Backgammon::apply(&mut s, Ok(vec![(Location::Board(Point(1)), 3)]));
    assert_eq!(s.counts[1], (StackHeight(14), StackHeight(0)));
    assert_eq!(s.counts[4], (StackHeight(1), StackHeight(0)));
    assert_eq!(s.counts[0], (StackHeight(0), StackHeight(1)));
    assert!(!s.player);
    assert!(s.roll_turn());
    assert_eq!(total(&s, true), 15);
    assert_eq!(total(&s, false), 15);
}

#[test]
fn black_enters_from_the_bar_at_25() {
    let counts = counts_with(&[(1, 15)], &[(0, 1), (24, 14)]);
    let mut s = State::from_parts(false, false, counts, (4, 2));
    assert!(legal_move(&(Location::Bar, 4), &s));
    Backgammon::apply(&mut s, Ok(vec![(Location::Bar, 4)]));
    assert_eq!(s.counts[0], (StackHeight(0), StackHeight(0)));
    assert_eq!(s.counts[21], (StackHeight(0), StackHeight(1)));
}

#[test]
fn legal_sequences_list_moves_last_first() {
    let counts = counts_with(&[(20, 15)], &[(1, 15)]);
    let s = State::from_parts(true, false, counts, (1, 2));
    let seqs = legal_sequences(&s, &[1, 2]);
    // the last die (2) is used first: 20 -> 22, then 1 from 20 or from 22
    assert!(seqs.contains(&vec![(Location::Board(Point(20)), 1), (Location::Board(Point(20)), 2)]));
    assert!(seqs.contains(&vec![(Location::Board(Point(22)), 1), (Location::Board(Point(20)), 2)]));
    assert!(seqs.contains(&vec![(Location::Board(Point(20)), 2)]));
}

#[test]
fn gammon_scores_two_points() {
    let counts = counts_with(&[(25, 15)], &[(6, 15)]);
    let s = State::from_parts(false, true, counts, (2, 1));
    assert!(Backgammon::finished(&s));
    assert_eq!(Backgammon::scores(&s), Some(vec![(None, 0), (Some(false), -2), (Some(true), 2)]));
}

#[test]
fn backgammon_scores_three_and_single_game_one() {
    let counts = counts_with(&[(25, 15)], &[(10, 15)]);
    let s = State::from_parts(false, true, counts, (2, 1));
    assert_eq!(Backgammon::scores(&s), Some(vec![(None, 0), (Some(false), -3), (Some(true), 3)]));
    let counts = counts_with(&[(25, 15)], &[(25, 1), (3, 14)]);
    let s = State::from_parts(false, true, counts, (2, 1));
    assert_eq!(Backgammon::scores(&s), Some(vec![(None, 0), (Some(false), -1), (Some(true), 1)]));
}

#[test]
fn bearing_off_needs_all_checkers_home() {
    let counts = counts_with(&[(23, 14), (10, 1)], &[(1, 15)]);
    let s = State::from_parts(true, false, counts, (3, 1));
    assert!(!legal_move(&(Location::Board(Point(23)), 3), &s));
    let counts = counts_with(&[(23, 15)], &[(1, 15)]);
    let s = State::from_parts(true, false, counts, (3, 1));
    assert!(all_homeboard(true, &s));
    assert!(legal_move(&(Location::Board(Point(23)), 3), &s));
}

#[test]
fn game_state_trait_copies_and_compares() {
    let s = <State as GameState>::new();
    let c = s.copy_state();
    assert!(s.same_state(&c));
    let mut d = s.copy_state();
    d.apply(Err((2, 2)));
    assert!(!s.same_state(&d));
    assert!(State::same_player(&Some(true), &Some(true)));
    assert!(!State::same_player(&None, &Some(false)));
    assert_eq!(s.possible_moves().len(), 21);
}

#[test]
fn every_legal_play_keeps_fifteen_checkers_and_unshared_points() {
    let mut start = Backgammon::new();
    Backgammon::apply(&mut start, Err((6, 5)));
    let plays = Backgammon::legal_moves(&start);
    assert!(!plays.is_empty());
    for play in plays {
        let mut s = start.clone();
        Backgammon::apply(&mut s, play);
        let white: u32 = s.counts.iter().map(|c| c.0 .0 as u32).sum();
        let black: u32 = s.counts.iter().map(|c| c.1 .0 as u32).sum();
        assert_eq!(white, 15);
        assert_eq!(black, 15);
        for i in 1..=24 {
            assert!(s.counts[i].0 .0 == 0 || s.counts[i].1 .0 == 0);
        }
    }
}

#[test]
fn the_order_of_the_moves_of_a_play_does_not_matter() {
    let mut start = Backgammon::new();
    Backgammon::apply(&mut start, Err((6, 5)));
    for play in Backgammon::legal_moves(&start) {
        let moves = play.clone().unwrap();
        let mut reversed = moves.clone();
        reversed.reverse();
        let mut a = start.clone();
        let mut b = start.clone();
        Backgammon::apply(&mut a, Ok(moves));
        Backgammon::apply(&mut b, Ok(reversed));
        assert!(a == b);
    }
}
