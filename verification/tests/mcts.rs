use game_trees::game::nim::Nim;
use game_trees::game::GameState;
use game_trees::mcts_hashtable::{MctsTable, UcbStats};

fn first(_c: &Vec<UcbStats>) -> Vec<usize> {
    vec![0]
}

fn second(_c: &Vec<UcbStats>) -> Vec<usize> {
    vec![1]
}

#[test]
fn a_new_table_holds_the_start_with_fresh_statistics() {
    let t = MctsTable::<Nim>::new();
    assert_eq!(t.len(), 1);
    let m = t.get(&Nim::new()).unwrap();
    assert_eq!(m.playouts, 0);
    assert_eq!(m.paths(), 0);
    assert_eq!(m.scoreboard, vec![(false, 0), (true, 0)]);
    assert_eq!(m.moves.len(), 10);
    for (k, (mv, (child, touches))) in m.moves.iter().enumerate() {
        assert_eq!(*mv, k as u32 + 1);
        assert_eq!(child.total(), k as u32 + 1);
        assert!(child.current_player());
        assert_eq!(*touches, 0);
    }
}

#[test]
fn a_playout_without_moves_counts_one_and_zero_scores() {
    let mut t = MctsTable::<Nim>::new();
    let s = Nim::new();
    t.playout(&s, 0, &first);
    let m = t.get(&s).unwrap();
    assert_eq!(m.playouts, 1);
    assert_eq!(m.paths(), 1);
    assert_eq!(m.scoreboard, vec![(false, 0), (true, 0)]);
    assert_eq!(t.len(), 1);
}

#[test]
fn a_playout_descends_and_adds_the_states_it_meets() {
    let mut t = MctsTable::<Nim>::new();
    let s = Nim::new();
    t.playout(&s, 3, &first);
    assert_eq!(t.len(), 4);
    assert_eq!(t.get(&s).unwrap().playouts, 1);
    assert_eq!(t.get(&s).unwrap().moves[0].1 .1, 1);
    assert_eq!(t.get(&Nim::from_parts(3, true)).unwrap().playouts, 1);
    // (3, white to move) is reached both through 1, 1, 1 and by adding 3 at once: the
    // tie between moves 1 and 3 goes to the last.
    assert_eq!(t.best_choice(&s), Some(3));
    assert!(t.has_explored(&Nim::from_parts(3, true), 0));
    assert!(!t.has_explored(&s, 1));
}

#[test]
fn scores_flow_back_up_the_path() {
    let s = Nim::from_parts(99, false);
    let mut t = MctsTable::with_state(s.copy_state());
    t.playout(&s, 5, &first);
    assert_eq!(t.get(&s).unwrap().scoreboard, vec![(false, 1), (true, -1)]);
    assert_eq!(t.get(&Nim::from_parts(100, true)).unwrap().scoreboard, vec![(false, 1), (true, -1)]);
    let stats = t.ucb_stats(&s).unwrap();
    assert_eq!(stats, vec![UcbStats { visits: 1, score: 1, parent_visits: 1 }]);
}

#[test]
fn garbage_collection_removes_what_only_the_state_reached() {
    let s = Nim::from_parts(99, false);
    let mut t = MctsTable::with_state(s.copy_state());
    t.playout(&s, 5, &first);
    assert_eq!(t.len(), 2);
    t.garbage_collect(&s);
    assert_eq!(t.len(), 0);
    assert!(t.get(&s).is_none());
}

#[test]
fn collecting_siblings_keeps_the_branch_taken() {
    let s = Nim::new();
    let mut t = MctsTable::with_state(s.copy_state());
    t.playout(&s, 2, &first);
    t.playout(&s, 2, &second);
    let one = Nim::from_parts(1, true);
    let two = Nim::from_parts(2, true);
    assert!(t.get(&one).is_some());
    assert!(t.get(&two).is_some());
    t.collect_siblings(&s, &one);
    assert!(t.get(&one).is_some());
    assert!(t.get(&two).is_none());
    assert!(t.get(&s).is_some());
}

#[test]
fn best_choice_prefers_the_most_visited_and_the_last_of_ties() {
    let s = Nim::new();
    let mut t = MctsTable::with_state(s.copy_state());
    assert_eq!(t.best_choice(&s), Some(10));
    t.playout(&s, 1, &second);
    t.playout(&s, 1, &second);
    t.playout(&s, 1, &first);
    assert_eq!(t.best_choice(&s), Some(2));
    assert_eq!(t.best_choice(&Nim::from_parts(50, true)), None);
}

#[test]
fn garbage_collection_leaves_states_no_playout_led_into_alone() {
    let s = Nim::new();
    let mut t = MctsTable::with_state(s.copy_state());
    t.playout(&s, 1, &first);
    t.playout(&s, 1, &second);
    let one = Nim::from_parts(1, true);
    let two = Nim::from_parts(2, true);
    assert_eq!(t.len(), 3);
    t.garbage_collect(&one);
    assert_eq!(t.len(), 2);
    assert!(t.get(&one).is_none());
    let m = t.get(&two).unwrap();
    assert_eq!(m.playouts, 1);
    assert_eq!(m.paths(), 1);
    assert_eq!(t.get(&s).unwrap().playouts, 2);
}

#[test]
fn a_playout_changes_only_the_states_of_its_line() {
    let s = Nim::new();
    let mut t = MctsTable::with_state(s.copy_state());
    t.playout(&s, 2, &first);
    let one = Nim::from_parts(1, true);
    let before = t.get(&one).unwrap().playouts;
    let before_paths = t.get(&one).unwrap().paths();
    t.playout(&s, 2, &second);
    assert_eq!(t.len(), 5);
    assert_eq!(t.get(&one).unwrap().playouts, before);
    assert_eq!(t.get(&one).unwrap().paths(), before_paths);
    assert_eq!(t.get(&s).unwrap().playouts, 2);
    assert_eq!(t.get(&Nim::from_parts(2, true)).unwrap().playouts, 1);
}

#[test]
fn a_default_table_is_empty() {
    let t = MctsTable::<Nim>::default();
    assert_eq!(t.len(), 0);
    assert!(t.get(&Nim::new()).is_none());
}
