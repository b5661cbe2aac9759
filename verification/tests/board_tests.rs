use battleship::board::{
    is_near_another_ship, place_if_valid, valid_generated_ship, Board, Cell, Placement,
    BATTLESHIP, BIG_SHIP_SIZE, BOARD_DIMENSION, MEDIUM_SHIP_SIZE, NUM_BIG_SHIPS,
    NUM_MEDIUM_SHIPS, NUM_SMALL_SHIPS, ORIENTATION, SMALL_SHIP_SIZE,
};

fn horizontal(row: usize, start: usize, size: usize) -> Placement {
    Placement { orientation: ORIENTATION::Horizontal, row_or_col: row, start_index: start, ship_size: size }
}

fn vertical(col: usize, start: usize, size: usize) -> Placement {
    Placement { orientation: ORIENTATION::Vertical, row_or_col: col, start_index: start, ship_size: size }
}

fn count_ships(board: &Board) -> usize {
    let mut ships = 0;
    for row in 0..10 {
        for col in 0..10 {
            if board.is_ship(row, col) {
                ships += 1;
            }
        }
    }
    ships
}

#[test]
fn ship_sizes_by_class() {
    assert_eq!(BATTLESHIP::Big.get_ship_size(), 4);
    assert_eq!(BATTLESHIP::Medium.get_ship_size(), 2);
    assert_eq!(BATTLESHIP::Small.get_ship_size(), 1);
}

#[test]
fn ship_counts_by_class() {
    assert_eq!(BATTLESHIP::Big.get_ship_count(), 1);
    assert_eq!(BATTLESHIP::Medium.get_ship_count(), 2);
    assert_eq!(BATTLESHIP::Small.get_ship_count(), 4);
}

#[test]
fn constants_of_the_configuration() {
    assert_eq!(BOARD_DIMENSION, 10);
    assert_eq!((NUM_BIG_SHIPS, BIG_SHIP_SIZE), (1, 4));
    assert_eq!((NUM_MEDIUM_SHIPS, MEDIUM_SHIP_SIZE), (2, 2));
    assert_eq!((NUM_SMALL_SHIPS, SMALL_SHIP_SIZE), (4, 1));
}

#[test]
fn new_board_is_empty() {
    let board = Board::new();
    assert_eq!(count_ships(&board), 0);
    assert_eq!(board.num_ships(), 0);
    assert_eq!(board.open_space_left(), 100);
    assert_eq!(board.ship_cell_count(), 0);
    assert!(board.ships().is_empty());
    assert_eq!(board.get(0, 0), Some(Cell::Empty));
    assert_eq!(board.get(9, 9), Some(Cell::Empty));
}

#[test]
fn cells_off_the_board() {
    let board = Board::new();
    assert_eq!(board.get(10, 0), None);
    assert_eq!(board.get(0, 10), None);
    assert!(!board.is_ship(10, 0));
    assert!(!board.is_ship(0, 10));
    assert!(!board.is_ship(usize::MAX, usize::MAX));
}

#[test]
fn placing_a_horizontal_ship_marks_its_row() {
    let mut board = Board::new();
    board.place(horizontal(2, 3, 4));
    for col in 0..10 {
        assert_eq!(board.is_ship(2, col), (3..7).contains(&col));
        assert!(!board.is_ship(1, col));
        assert!(!board.is_ship(3, col));
    }
    assert_eq!(count_ships(&board), 4);
    assert_eq!(board.get(2, 3), Some(Cell::Ship));
}

#[test]
fn placing_a_vertical_ship_marks_its_column() {
    let mut board = Board::new();
    board.place(vertical(7, 8, 2));
    for row in 0..10 {
        assert_eq!(board.is_ship(row, 7), row == 8 || row == 9);
        assert!(!board.is_ship(row, 6));
        assert!(!board.is_ship(row, 8));
    }
    assert_eq!(count_ships(&board), 2);
}

#[test]
fn placing_updates_the_counts() {
    let mut board = Board::new();
    board.place(horizontal(0, 0, 4));
    assert_eq!(board.num_ships(), 1);
    assert_eq!(board.open_space_left(), 96);
    assert_eq!(board.ship_cell_count(), 4);
    board.place(vertical(9, 5, 2));
    assert_eq!(board.num_ships(), 2);
    assert_eq!(board.open_space_left(), 94);
    assert_eq!(board.ship_cell_count(), 6);
    assert_eq!(board.ships().as_slice(), &[horizontal(0, 0, 4), vertical(9, 5, 2)]);
}

#[test]
fn near_another_ship_looks_at_the_four_sides() {
    let mut board = Board::new();
    board.place(horizontal(5, 5, 1));
    assert!(is_near_another_ship(&board, 4, 5));
    assert!(is_near_another_ship(&board, 6, 5));
    assert!(is_near_another_ship(&board, 5, 4));
    assert!(is_near_another_ship(&board, 5, 6));
}

#[test]
fn near_another_ship_ignores_diagonals_and_the_cell_itself() {
    let mut board = Board::new();
    board.place(horizontal(5, 5, 1));
    assert!(!is_near_another_ship(&board, 4, 4));
    assert!(!is_near_another_ship(&board, 4, 6));
    assert!(!is_near_another_ship(&board, 6, 4));
    assert!(!is_near_another_ship(&board, 6, 6));
    assert!(!is_near_another_ship(&board, 5, 5));
    assert!(!is_near_another_ship(&board, 5, 7));
}

#[test]
fn near_another_ship_at_the_corners() {
    let mut board = Board::new();
    board.place(horizontal(0, 0, 1));
    board.place(horizontal(9, 9, 1));
    assert!(is_near_another_ship(&board, 0, 1));
    assert!(is_near_another_ship(&board, 1, 0));
    assert!(is_near_another_ship(&board, 9, 8));
    assert!(is_near_another_ship(&board, 8, 9));
    assert!(!is_near_another_ship(&board, 0, 9));
    assert!(!is_near_another_ship(&board, 9, 0));
}

#[test]
fn near_another_ship_off_the_board() {
    let mut board = Board::new();
    board.place(vertical(3, 9, 1));
    assert!(is_near_another_ship(&board, 10, 3));
    assert!(!is_near_another_ship(&board, 11, 3));
    assert!(!is_near_another_ship(&board, 10, 4));
    assert!(!is_near_another_ship(&board, usize::MAX, usize::MAX));
}

#[test]
fn any_ship_on_the_grid_fits_an_empty_board() {
    let board = Board::new();
    for size in 0..=10 {
        for line in 0..10 {
            for start in 0..=(10 - size) {
                assert!(valid_generated_ship(&board, size, start, line, &ORIENTATION::Vertical));
                assert!(valid_generated_ship(&board, size, start, line, &ORIENTATION::Horizontal));
            }
        }
    }
}

#[test]
fn ship_must_end_on_the_board() {
    let board = Board::new();
    assert!(valid_generated_ship(&board, 4, 6, 0, &ORIENTATION::Horizontal));
    assert!(!valid_generated_ship(&board, 4, 7, 0, &ORIENTATION::Horizontal));
    assert!(valid_generated_ship(&board, 1, 9, 9, &ORIENTATION::Vertical));
    assert!(!valid_generated_ship(&board, 1, 10, 9, &ORIENTATION::Vertical));
    assert!(!valid_generated_ship(&board, 1, 0, 10, &ORIENTATION::Vertical));
    assert!(!valid_generated_ship(&board, 11, 0, 0, &ORIENTATION::Horizontal));
    assert!(!valid_generated_ship(&board, usize::MAX, usize::MAX, 0, &ORIENTATION::Horizontal));
}

#[test]
fn ship_may_not_overlap_another() {
    let mut board = Board::new();
    board.place(horizontal(4, 2, 4));
    assert!(!valid_generated_ship(&board, 2, 4, 4, &ORIENTATION::Horizontal));
    assert!(!valid_generated_ship(&board, 4, 2, 3, &ORIENTATION::Vertical));
    assert!(!valid_generated_ship(&board, 1, 5, 4, &ORIENTATION::Horizontal));
}

#[test]
fn ship_may_not_touch_another_edge_to_edge() {
    let mut board = Board::new();
    board.place(horizontal(4, 2, 4));
    assert!(!valid_generated_ship(&board, 2, 2, 3, &ORIENTATION::Horizontal));
    assert!(!valid_generated_ship(&board, 2, 4, 5, &ORIENTATION::Horizontal));
    assert!(!valid_generated_ship(&board, 1, 1, 4, &ORIENTATION::Horizontal));
    assert!(!valid_generated_ship(&board, 1, 6, 4, &ORIENTATION::Horizontal));
    assert!(!valid_generated_ship(&board, 2, 2, 2, &ORIENTATION::Vertical));
}

#[test]
fn ship_may_touch_another_at_a_corner() {
    let mut board = Board::new();
    board.place(horizontal(4, 2, 4));
    assert!(valid_generated_ship(&board, 1, 1, 3, &ORIENTATION::Horizontal));
    assert!(valid_generated_ship(&board, 1, 6, 3, &ORIENTATION::Horizontal));
    assert!(valid_generated_ship(&board, 1, 1, 5, &ORIENTATION::Horizontal));
    assert!(valid_generated_ship(&board, 2, 6, 5, &ORIENTATION::Horizontal));
    assert!(valid_generated_ship(&board, 2, 2, 2, &ORIENTATION::Horizontal));
}

#[test]
fn place_if_valid_places_a_free_candidate() {
    let mut board = Board::new();
    assert!(place_if_valid(&mut board, vertical(0, 0, 4)));
    assert_eq!(count_ships(&board), 4);
    assert_eq!(board.num_ships(), 1);
    assert_eq!(board.open_space_left(), 96);
}

#[test]
fn place_if_valid_refuses_and_leaves_the_board() {
    let mut board = Board::new();
    assert!(place_if_valid(&mut board, vertical(0, 0, 4)));
    assert!(!place_if_valid(&mut board, vertical(1, 2, 2)));
    assert!(!place_if_valid(&mut board, vertical(0, 3, 2)));
    assert!(!place_if_valid(&mut board, horizontal(9, 8, 4)));
    assert_eq!(count_ships(&board), 4);
    assert_eq!(board.num_ships(), 1);
    assert_eq!(board.open_space_left(), 96);
    assert_eq!(board.ships().as_slice(), &[vertical(0, 0, 4)]);
}
