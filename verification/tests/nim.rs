use game_trees::game::nim::Nim;
use game_trees::game::GameState;

#[test]
fn nim_starts_at_zero_with_black() {
    let n = Nim::new();
    assert_eq!(n.total(), 0);
    assert!(!n.current_player());
    assert!(!n.finished());
    assert_eq!(n.scores(), None);
    assert_eq!(Nim::players(), vec![false, true]);
}

#[test]
fn nim_moves_add_one_to_ten() {
    let n = Nim::new();
    assert_eq!(n.legal_moves(), (1..=10).collect::<Vec<u32>>());
    let n = Nim::from_parts(95, true);
    assert_eq!(n.legal_moves(), vec![1, 2, 3, 4, 5]);
}

#[test]
fn nim_apply_adds_and_passes_the_turn() {
    let mut n = Nim::new();
    n.apply(7);
    assert_eq!(n.total(), 7);
    assert!(n.current_player());
    n.apply(3);
    assert_eq!(n.total(), 10);
    assert!(!n.current_player());
}

#[test]
fn nim_reaching_exactly_100_wins() {
    let n = Nim::from_parts(100, true);
    assert!(n.finished());
    assert_eq!(n.scores(), Some(vec![(false, 1), (true, -1)]));
    let n = Nim::from_parts(100, false);
    assert_eq!(n.scores(), Some(vec![(false, -1), (true, 1)]));
}

#[test]
fn nim_overshooting_costs_both() {
    let n = Nim::from_parts(105, false);
    assert_eq!(n.scores(), Some(vec![(false, -5), (true, -5)]));
    assert!(n.possible_moves().is_empty());
}

#[test]
fn nim_possible_moves_stop_at_the_end() {
    let n = Nim::from_parts(99, false);
    assert_eq!(n.possible_moves(), vec![1]);
    let mut m = n.copy_state();
    m.apply(1);
    assert!(m.finished());
    assert!(m.possible_moves().is_empty());
}
