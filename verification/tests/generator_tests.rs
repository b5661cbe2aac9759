use battleship::board::{valid_generated_ship, Board, Placement, BATTLESHIP, ORIENTATION};
use battleship::generator::{
    find_free_placement, generate, init_board, initialize_battleships, orientation_of_draw,
    place_ship, standard_fleet, PlacementExhaustion, ShipOrder, MAX_RANDOM_ATTEMPTS,
};

fn cells_of(p: &Placement) -> Vec<(usize, usize)> {
    (p.start_index..p.start_index + p.ship_size)
        .map(|along| match p.orientation {
            ORIENTATION::Vertical => (along, p.row_or_col),
            ORIENTATION::Horizontal => (p.row_or_col, along),
        })
        .collect()
}

fn ship_cells(board: &Board) -> Vec<(usize, usize)> {
    let mut cells = Vec::new();
    for row in 0..10 {
        for col in 0..10 {
            if board.is_ship(row, col) {
                cells.push((row, col));
            }
        }
    }
    cells
}

fn touch(a: (usize, usize), b: (usize, usize)) -> bool {
    a.0.abs_diff(b.0) + a.1.abs_diff(b.1) <= 1
}

fn assert_fleet_layout(board: &Board, sizes: &[usize]) {
    let ships = board.ships();
    let found: Vec<usize> = ships.iter().map(|p| p.ship_size).collect();
    assert_eq!(found, sizes);
    let mut covered = Vec::new();
    for (i, p) in ships.iter().enumerate() {
        assert!(p.row_or_col < 10);
        assert!(p.start_index + p.ship_size <= 10);
        for cell in cells_of(p) {
            for (j, q) in ships.iter().enumerate() {
                if i != j {
                    for other in cells_of(q) {
                        assert!(!touch(cell, other), "ships {} and {} touch", i, j);
                    }
                }
            }
            covered.push(cell);
        }
    }
    covered.sort();
    assert_eq!(covered, ship_cells(board));
    let total: usize = sizes.iter().sum();
    assert_eq!(board.ship_cell_count(), total);
    assert_eq!(board.open_space_left(), 100 - total);
    assert_eq!(board.num_ships(), sizes.len());
}

#[test]
fn generated_board_has_twelve_ship_cells() {
    for _ in 0..200 {
        let board = init_board();
        assert_eq!(ship_cells(&board).len(), 12);
        assert_eq!(100 - ship_cells(&board).len(), 88);
        assert_eq!(board.ship_cell_count(), 12);
        assert_eq!(board.open_space_left(), 88);
        assert_eq!(board.num_ships(), 7);
    }
}

#[test]
fn generated_ships_are_straight_and_apart() {
    for _ in 0..200 {
        let board = init_board();
        assert_fleet_layout(&board, &[4, 2, 2, 1, 1, 1, 1]);
    }
}

#[test]
fn generator_runs_ten_thousand_times() {
    for _ in 0..10_000 {
        let board = init_board();
        assert_eq!(board.num_ships(), 7);
    }
}

#[test]
fn generated_boards_differ() {
    let first = ship_cells(&init_board());
    let mut differs = false;
    let mut horizontal = false;
    let mut vertical = false;
    let mut last_line = false;
    for _ in 0..200 {
        let board = init_board();
        differs = differs || ship_cells(&board) != first;
        for p in board.ships() {
            horizontal = horizontal || p.orientation == ORIENTATION::Horizontal;
            vertical = vertical || p.orientation == ORIENTATION::Vertical;
            last_line = last_line || p.start_index + p.ship_size == 10;
        }
    }
    assert!(differs);
    assert!(horizontal);
    assert!(vertical);
    assert!(last_line);
}

#[test]
fn orientation_of_each_draw() {
    assert_eq!(orientation_of_draw(1), ORIENTATION::Vertical);
    assert_eq!(orientation_of_draw(2), ORIENTATION::Horizontal);
    assert_eq!(orientation_of_draw(0), ORIENTATION::Horizontal);
}

#[test]
fn attempts_are_capped() {
    assert_eq!(MAX_RANDOM_ATTEMPTS, 1000);
}

#[test]
fn first_free_placement_of_an_empty_board() {
    let board = Board::new();
    let expected = Placement {
        orientation: ORIENTATION::Vertical,
        row_or_col: 0,
        start_index: 0,
        ship_size: 4,
    };
    assert_eq!(find_free_placement(&board, 4), Some(expected));
    assert_eq!(find_free_placement(&board, 11), None);
}

#[test]
fn first_free_placement_skips_taken_places() {
    let mut board = Board::new();
    board.place(Placement {
        orientation: ORIENTATION::Vertical,
        row_or_col: 0,
        start_index: 0,
        ship_size: 4,
    });
    let expected = Placement {
        orientation: ORIENTATION::Vertical,
        row_or_col: 0,
        start_index: 5,
        ship_size: 2,
    };
    assert_eq!(find_free_placement(&board, 2), Some(expected));
}

#[test]
fn first_free_placement_turns_to_rows_when_no_column_is_free() {
    let mut board = Board::new();
    for row in [1, 4, 7] {
        for start in [0, 5] {
            board.place(Placement {
                orientation: ORIENTATION::Horizontal,
                row_or_col: row,
                start_index: start,
                ship_size: 5,
            });
        }
    }
    let expected = Placement {
        orientation: ORIENTATION::Horizontal,
        row_or_col: 9,
        start_index: 0,
        ship_size: 4,
    };
    assert_eq!(find_free_placement(&board, 4), Some(expected));
    assert_eq!(find_free_placement(&board, 10), Some(Placement { ship_size: 10, ..expected }));
}

fn crowded_board() -> Board {
    let mut board = Board::new();
    for row in [0, 2, 4, 6, 8] {
        board.place(Placement {
            orientation: ORIENTATION::Horizontal,
            row_or_col: row,
            start_index: 0,
            ship_size: 10,
        });
    }
    board
}

#[test]
fn no_placement_on_a_crowded_board() {
    let mut board = crowded_board();
    assert_eq!(find_free_placement(&board, 1), None);
    assert_eq!(place_ship(&mut board, 1), Err(PlacementExhaustion));
    assert_eq!(board.num_ships(), 5);
    assert_eq!(board.open_space_left(), 50);
}

#[test]
fn place_ship_finds_the_only_free_place() {
    let mut board = Board::new();
    for row in [1, 3, 5, 7] {
        board.place(Placement {
            orientation: ORIENTATION::Horizontal,
            row_or_col: row,
            start_index: 0,
            ship_size: 10,
        });
    }
    board.place(Placement {
        orientation: ORIENTATION::Horizontal,
        row_or_col: 9,
        start_index: 0,
        ship_size: 7,
    });
    let placed = place_ship(&mut board, 2).unwrap();
    assert_eq!(
        placed,
        Placement { orientation: ORIENTATION::Horizontal, row_or_col: 9, start_index: 8, ship_size: 2 }
    );
    assert!(board.is_ship(9, 8));
    assert!(board.is_ship(9, 9));
    assert!(!board.is_ship(9, 7));
    assert_eq!(board.num_ships(), 6);
    assert_eq!(board.open_space_left(), 100 - 49);
    assert_eq!(place_ship(&mut board, 1), Err(PlacementExhaustion));
}

#[test]
fn place_ship_returns_a_place_that_was_free() {
    for _ in 0..100 {
        let mut board = Board::new();
        let before = Board::new();
        let p = place_ship(&mut board, 4).unwrap();
        assert_eq!(p.ship_size, 4);
        assert!(valid_generated_ship(&before, 4, p.start_index, p.row_or_col, &p.orientation));
        assert_fleet_layout(&board, &[4]);
    }
}

#[test]
fn place_ship_refuses_a_ship_longer_than_the_board() {
    let mut board = Board::new();
    assert_eq!(place_ship(&mut board, 11), Err(PlacementExhaustion));
    assert_eq!(board.num_ships(), 0);
}

#[test]
fn initialize_battleships_adds_the_ships_of_a_class() {
    let mut board = Board::new();
    assert_eq!(initialize_battleships(&mut board, BATTLESHIP::Medium, 3), Ok(()));
    assert_fleet_layout(&board, &[2, 2, 2]);
    assert_eq!(initialize_battleships(&mut board, BATTLESHIP::Small, 0), Ok(()));
    assert_fleet_layout(&board, &[2, 2, 2]);
    assert_eq!(initialize_battleships(&mut board, BATTLESHIP::Big, 1), Ok(()));
    assert_fleet_layout(&board, &[2, 2, 2, 4]);
}

#[test]
fn initialize_battleships_stops_when_the_board_is_full() {
    let mut board = Board::new();
    assert_eq!(initialize_battleships(&mut board, BATTLESHIP::Small, 51), Err(PlacementExhaustion));
    let placed = board.num_ships();
    assert!(placed >= 16 && placed <= 50);
    assert_fleet_layout(&board, &vec![1; placed]);
    assert_eq!(find_free_placement(&board, 1), None);
}

#[test]
fn standard_fleet_lists_the_three_classes() {
    let orders = standard_fleet();
    assert_eq!(
        orders,
        vec![
            ShipOrder { ship_type: BATTLESHIP::Big, ship_count: 1 },
            ShipOrder { ship_type: BATTLESHIP::Medium, ship_count: 2 },
            ShipOrder { ship_type: BATTLESHIP::Small, ship_count: 4 },
        ]
    );
}

#[test]
fn generate_serves_the_standard_fleet() {
    for _ in 0..100 {
        let board = generate(&standard_fleet()).unwrap();
        assert_fleet_layout(&board, &[4, 2, 2, 1, 1, 1, 1]);
    }
}

#[test]
fn generate_serves_orders_in_their_order() {
    let orders = vec![
        ShipOrder { ship_type: BATTLESHIP::Small, ship_count: 2 },
        ShipOrder { ship_type: BATTLESHIP::Big, ship_count: 1 },
        ShipOrder { ship_type: BATTLESHIP::Medium, ship_count: 0 },
        ShipOrder { ship_type: BATTLESHIP::Small, ship_count: 1 },
    ];
    let board = generate(&orders).unwrap();
    assert_fleet_layout(&board, &[1, 1, 4, 1]);
}

#[test]
fn generate_without_orders_gives_an_empty_board() {
    let board = generate(&Vec::new()).unwrap();
    assert_fleet_layout(&board, &[]);
}

#[test]
fn generate_fails_when_the_fleet_cannot_fit() {
    let orders = vec![ShipOrder { ship_type: BATTLESHIP::Big, ship_count: 30 }];
    assert!(generate(&orders).is_err());
}
