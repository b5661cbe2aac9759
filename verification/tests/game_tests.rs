use battleship::codec::Move;
use battleship::game::{create_match, handle_client_message, submit_move, Ack, MoveError, Phase};

#[test]
fn new_match_has_two_standard_boards() {
    let game = create_match();
    for player in [1, 2] {
        let board = game.board_of(player);
        assert_eq!(board.num_ships(), 7);
        assert_eq!(board.ship_cell_count(), 12);
        assert_eq!(board.open_space_left(), 88);
    }
    assert_eq!(game.turn(), 1);
    assert!(game.moves().is_empty());
    assert_eq!(game.current_phase(), Phase::WaitingForSecondPlayer);
}

#[test]
fn submitted_move_is_logged_and_acknowledged() {
    let mut game = create_match();
    assert_eq!(handle_client_message(&mut game, "1,3,4"), Ok(Ack::Turn));
    assert_eq!(game.moves().as_slice(), &[Move { player_number: 1, row: 3, col: 4 }]);
    assert_eq!(Ack::Turn.payload(), "turn");
}

#[test]
fn message_that_is_no_move_is_a_protocol_violation() {
    let mut game = create_match();
    assert_eq!(handle_client_message(&mut game, "abc,1,2"), Err(MoveError::ProtocolViolation));
    assert!(game.moves().is_empty());
    assert_eq!(handle_client_message(&mut game, "2,0,0"), Ok(Ack::Turn));
    assert_eq!(game.moves().len(), 1);
}

#[test]
fn move_off_the_board_is_out_of_bounds() {
    let mut game = create_match();
    assert_eq!(handle_client_message(&mut game, "1,10,0"), Err(MoveError::OutOfBounds));
    assert!(game.moves().is_empty());
    assert_eq!(handle_client_message(&mut game, "1,0,10"), Err(MoveError::OutOfBounds));
    assert!(game.moves().is_empty());
}

#[test]
fn submit_move_checks_both_coordinates() {
    let mut game = create_match();
    assert_eq!(submit_move(&mut game, 1, 9, 9), Ok(Ack::Turn));
    assert_eq!(submit_move(&mut game, 1, 0, 0), Ok(Ack::Turn));
    assert_eq!(submit_move(&mut game, 1, 10, 9), Err(MoveError::OutOfBounds));
    assert_eq!(submit_move(&mut game, 1, 9, 10), Err(MoveError::OutOfBounds));
    assert_eq!(submit_move(&mut game, 1, usize::MAX, usize::MAX), Err(MoveError::OutOfBounds));
    assert_eq!(game.moves().len(), 2);
}

#[test]
fn log_grows_by_one_per_accepted_move() {
    let mut game = create_match();
    for i in 0..50 {
        assert_eq!(game.moves().len(), i);
        assert_eq!(submit_move(&mut game, 1 + i % 2, i % 10, i / 10), Ok(Ack::Turn));
        assert_eq!(game.moves().len(), i + 1);
        assert_eq!(game.moves()[i], Move { player_number: 1 + i % 2, row: i % 10, col: i / 10 });
    }
}

#[test]
fn any_player_may_move_at_any_time() {
    let mut game = create_match();
    assert_eq!(submit_move(&mut game, 2, 1, 1), Ok(Ack::Turn));
    assert_eq!(submit_move(&mut game, 2, 1, 1), Ok(Ack::Turn));
    assert_eq!(submit_move(&mut game, 7, 1, 1), Ok(Ack::Turn));
    assert_eq!(game.turn(), 1);
    assert_eq!(
        game.moves().as_slice(),
        &[
            Move { player_number: 2, row: 1, col: 1 },
            Move { player_number: 2, row: 1, col: 1 },
            Move { player_number: 7, row: 1, col: 1 },
        ]
    );
}

#[test]
fn moves_leave_the_boards_alone() {
    let mut game = create_match();
    let before: Vec<bool> = (0..100).map(|i| game.board_of(2).is_ship(i / 10, i % 10)).collect();
    for i in 0..100 {
        assert_eq!(submit_move(&mut game, 1, i / 10, i % 10), Ok(Ack::Turn));
    }
    let after: Vec<bool> = (0..100).map(|i| game.board_of(2).is_ship(i / 10, i % 10)).collect();
    assert_eq!(before, after);
    assert_eq!(game.board_of(2).open_space_left(), 88);
}

#[test]
fn players_get_sequential_numbers() {
    let mut game = create_match();
    assert_eq!(game.current_phase(), Phase::WaitingForSecondPlayer);
    assert_eq!(game.connect(), Some(1));
    assert_eq!(game.current_phase(), Phase::WaitingForSecondPlayer);
    assert_eq!(game.connect(), Some(2));
    assert_eq!(game.current_phase(), Phase::Active);
    assert_eq!(game.connect(), Some(3));
    assert_eq!(game.current_phase(), Phase::Active);
    assert!(game.moves().is_empty());
}

#[test]
fn board_of_each_player() {
    let game = create_match();
    let one: Vec<bool> = (0..100).map(|i| game.board_of(1).is_ship(i / 10, i % 10)).collect();
    let again: Vec<bool> = (0..100).map(|i| game.board_of(1).is_ship(i / 10, i % 10)).collect();
    assert_eq!(one, again);
    assert_eq!(game.board_of(2).ships(), game.board_of(3).ships());
}
