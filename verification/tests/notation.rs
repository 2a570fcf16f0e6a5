use game_trees::game::backgammon::{Backgammon, Location, Point, StackHeight};
use game_trees::notation::{
    check_move, format_move, format_sequence, parse_location, parse_moves, parse_roll, state_lines, NotationError,
    NumberError,
};

#[test]
fn locations_are_read_by_name_or_number() {
    assert_eq!(parse_location("home"), Ok(Location::Home));
    assert_eq!(parse_location("bar"), Ok(Location::Bar));
    assert_eq!(parse_location("13"), Ok(Location::Board(Point(13))));
    assert_eq!(parse_location("+7"), Ok(Location::Board(Point(7))));
    assert_eq!(parse_location(""), Err(NotationError::Number(NumberError::Empty)));
    assert_eq!(parse_location("x"), Err(NotationError::Number(NumberError::InvalidDigit)));
    assert_eq!(parse_location("+"), Err(NotationError::Number(NumberError::InvalidDigit)));
    assert_eq!(parse_location("256"), Err(NotationError::Number(NumberError::PosOverflow)));
    assert_eq!(parse_location("Home"), Err(NotationError::Number(NumberError::InvalidDigit)));
}

#[test]
fn plays_are_read_move_by_move() {
    assert_eq!(
        parse_moves("13,5 bar,3\n"),
        Ok(vec![(Location::Board(Point(13)), 5), (Location::Bar, 3)])
    );
    assert_eq!(parse_moves("  \n"), Ok(vec![]));
    assert_eq!(parse_moves("13,5,7"), Ok(vec![(Location::Board(Point(13)), 5)]));
    assert_eq!(parse_moves("13"), Err(NotationError::NoAmount));
    assert_eq!(parse_moves(",,5"), Err(NotationError::NoAmount));
    assert_eq!(parse_moves(",,"), Err(NotationError::NoLocation));
    assert_eq!(parse_moves("a,1"), Err(NotationError::Number(NumberError::InvalidDigit)));
    assert_eq!(parse_moves("1,b 2"), Err(NotationError::Number(NumberError::InvalidDigit)));
    assert_eq!(parse_moves("1,300"), Err(NotationError::Number(NumberError::PosOverflow)));
}

#[test]
fn throws_are_read_from_the_end_of_the_line() {
    assert_eq!(parse_roll("1 3\n"), Ok((3, 1)));
    assert_eq!(parse_roll("6 6\n"), Ok((6, 6)));
    assert_eq!(parse_roll("3 1\n"), Err(NotationError::InvalidRoll));
    assert_eq!(parse_roll("7 7\n"), Err(NotationError::InvalidRoll));
    assert_eq!(parse_roll(""), Err(NotationError::NothingWritten));
    assert_eq!(parse_roll("\n"), Err(NotationError::NoDigit));
    assert_eq!(parse_roll("5\n"), Err(NotationError::NoSecondNumber));
    assert_eq!(parse_roll(" 5\n"), Err(NotationError::NoSecondDigit));
    assert_eq!(parse_roll("x 5\n"), Err(NotationError::Number(NumberError::InvalidDigit)));
    assert_eq!(parse_roll("1 +\n"), Err(NotationError::Number(NumberError::InvalidDigit)));
}

#[test]
fn error_messages() {
    assert_eq!(NotationError::NothingWritten.message(), "Write something!");
    assert_eq!(NotationError::InvalidRoll.message(), "Not a valid dice roll");
    assert_eq!(NotationError::IllegalMove.message(), "That's not a legal move. Please try again.");
    assert_eq!(
        NotationError::Number(NumberError::InvalidDigit).message(),
        "invalid digit found in string"
    );
    assert_eq!(
        NotationError::Number(NumberError::Empty).message(),
        "cannot parse integer from empty string"
    );
    assert_eq!(
        NotationError::Number(NumberError::PosOverflow).message(),
        "number too large to fit in target type"
    );
}

#[test]
fn moves_are_written_as_location_comma_points() {
    assert_eq!(format_move(&(Location::Board(Point(13)), 5)), "13,5");
    assert_eq!(format_move(&(Location::Bar, 3)), "bar,3");
    assert_eq!(format_move(&(Location::Home, 0)), "home,0");
    assert_eq!(format_sequence(&[(Location::Board(Point(13)), 5), (Location::Bar, 3)]), "13,5 bar,3");
    assert_eq!(format_sequence(&[]), "");
    assert_eq!(Location::Board(Point(200)).to_string(), "200");
    assert_eq!(StackHeight(15).to_string(), "15");
}

#[test]
fn the_starting_position_is_shown_point_by_point() {
    let lines = state_lines(&Backgammon::new());
    assert_eq!(lines.len(), 26);
    assert_eq!(lines[0], "1: (2, 0)");
    assert_eq!(lines[5], "6: (0, 5)");
    assert_eq!(lines[11], "12: (5, 0)");
    assert_eq!(lines[24], "bar: (0, 0)");
    assert_eq!(lines[25], "home: (0, 0)");
}

#[test]
fn a_written_play_is_accepted_only_if_legal() {
    let mut s = Backgammon::new();
    Backgammon::apply(&mut s, Err((3, 1)));
    assert_eq!(
        check_move(&s, "1,1 2,3\n"),
        Ok(Ok(vec![(Location::Board(Point(1)), 1), (Location::Board(Point(2)), 3)]))
    );
    assert_eq!(check_move(&s, "2,3 1,1\n"), Err(NotationError::IllegalMove));
    assert_eq!(check_move(&s, "1,1\n"), Err(NotationError::IllegalMove));
    assert_eq!(check_move(&s, "1\n"), Err(NotationError::NoAmount));
}

#[test]
fn a_written_sequence_reads_back() {
    let ms = vec![
        (Location::Bar, 3),
        (Location::Board(Point(200)), 255),
        (Location::Home, 0),
        (Location::Board(Point(7)), 12),
    ];
    let text = format_sequence(&ms);
    assert_eq!(text, "bar,3 200,255 home,0 7,12");
    assert_eq!(parse_moves(&text), Ok(ms));
    assert_eq!(parse_moves(&format_sequence(&[])), Ok(vec![]));
}
