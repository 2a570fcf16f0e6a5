use game_trees::turn::{search_waits, turn_end, wait_step, TurnEnd, WaitAction};

#[test]
fn the_wait_announces_then_dots_then_ends() {
    assert_eq!(wait_step(6, false), (5, WaitAction::Announce));
    assert_eq!(wait_step(5, false), (4, WaitAction::Dot));
    assert_eq!(wait_step(1, false), (0, WaitAction::Done));
    assert_eq!(wait_step(4, true), (0, WaitAction::Done));
}

#[test]
fn the_search_waits_past_the_table_limit() {
    assert!(!search_waits(1 << 20));
    assert!(search_waits((1 << 20) + 1));
}

#[test]
fn the_player_who_finishes_wins() {
    assert_eq!(turn_end(true, false), TurnEnd::GoOn);
    assert_eq!(turn_end(true, true), TurnEnd::HumanWon);
    assert_eq!(turn_end(false, true), TurnEnd::ComputerWon);
}
