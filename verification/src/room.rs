//! Why the fleet always fits: a board that holds few enough ship cells has
//! room for one more ship.
//!
//! The argument picks, for each class, a number of horizontal test
//! placements whose surroundings do not overlap. A ship cell can spoil at
//! most one of them, so with fewer ship cells than test placements one of
//! them is free.

use vstd::prelude::*;
use vstd::set_lib::*;
use crate::board::{
    cell_clear, is_grid, lemma_cells_add_up, placement_valid, ship_at, ship_cells, ship_positions,
    Cell, Placement, BATTLESHIP, ORIENTATION,
};

verus! {

impl BATTLESHIP {
    /// A board with fewer ship cells than this has room for one more ship of
    /// the class.
    pub open spec fn room(self) -> nat {
        match self {
            BATTLESHIP::Big => 8,
            BATTLESHIP::Medium => 12,
            BATTLESHIP::Small => 16,
        }
    }
}

/// The block that holds the cell: the board is cut into four bands of rows
/// and, depending on the class, two, three or four bands of columns.
pub open spec fn block_of(class: BATTLESHIP, row: int, col: int) -> int {
    match class {
        BATTLESHIP::Big => ((row + 1) / 3) * 2 + (col + 1) / 6,
        BATTLESHIP::Medium => ((row + 1) / 3) * 3 + (col + 1) / 4,
        BATTLESHIP::Small => ((row + 1) / 3) * 4 + (col + 1) / 3,
    }
}

/// The test placement of block `k`: it and all the cells around it lie in
/// that block.
pub open spec fn probe(class: BATTLESHIP, k: int) -> Placement {
    match class {
        BATTLESHIP::Big => Placement {
            orientation: ORIENTATION::Horizontal,
            row_or_col: (3 * (k / 2)) as usize,
            start_index: (6 * (k % 2)) as usize,
            ship_size: 4,
        },
        BATTLESHIP::Medium => Placement {
            orientation: ORIENTATION::Horizontal,
            row_or_col: (3 * (k / 3)) as usize,
            start_index: (4 * (k % 3)) as usize,
            ship_size: 2,
        },
        BATTLESHIP::Small => Placement {
            orientation: ORIENTATION::Horizontal,
            row_or_col: (3 * (k / 4)) as usize,
            start_index: (3 * (k % 4)) as usize,
            ship_size: 1,
        },
    }
}

/// A ship cell of block `k`, where the grid has one.
pub open spec fn spoiler(grid: Seq<Seq<Cell>>, class: BATTLESHIP, k: int) -> int {
    choose|i: int| ship_positions(grid).contains(i) && block_of(class, i / 10, i % 10) == k
}

/// A test placement that is not free has a ship cell in its block.
proof fn lemma_spoiled_probe(grid: Seq<Seq<Cell>>, class: BATTLESHIP, k: int)
    requires
        is_grid(grid),
        0 <= k < class.room(),
        !placement_valid(grid, probe(class, k)),
    ensures
        ship_positions(grid).contains(spoiler(grid, class, k)),
        block_of(class, spoiler(grid, class, k) / 10, spoiler(grid, class, k) % 10) == k,
{
    let p = probe(class, k);
    assert(p.in_grid());
    let (row, col) = choose|row: int, col: int| #[trigger]
        p.covers(row, col) && !cell_clear(grid, row, col);
    let (r, c) = if ship_at(grid, row, col) {
        (row, col)
    } else if ship_at(grid, row - 1, col) {
        (row - 1, col)
    } else if ship_at(grid, row + 1, col) {
        (row + 1, col)
    } else if ship_at(grid, row, col - 1) {
        (row, col - 1)
    } else {
        (row, col + 1)
    };
    assert(ship_at(grid, r, c));
    let i = r * 10 + c;
    assert(i / 10 == r && i % 10 == c);
    assert(ship_positions(grid).contains(i));
    assert(block_of(class, r, c) == k);
}

/// A board with fewer ship cells than `class.room()` has a free place for a
/// ship of the class.
pub proof fn lemma_room_for_ship(grid: Seq<Seq<Cell>>, class: BATTLESHIP)
    requires
        is_grid(grid),
        ship_cells(grid) < class.room(),
    ensures
        exists|p: Placement| p.ship_size == class.size() && #[trigger] placement_valid(grid, p),
{
    let n = class.room() as int;
    if forall|k: int| 0 <= k < n ==> !placement_valid(grid, #[trigger] probe(class, k)) {
        let spoilers = Seq::new(n as nat, |k: int| spoiler(grid, class, k));
        assert forall|k: int| 0 <= k < n implies ship_positions(grid).contains(
            #[trigger] spoilers[k],
        ) && block_of(class, spoilers[k] / 10, spoilers[k] % 10) == k by {
            assert(!placement_valid(grid, probe(class, k)));
            lemma_spoiled_probe(grid, class, k);
        }
        assert(spoilers.no_duplicates());
        spoilers.unique_seq_to_set();
        lemma_cells_add_up(grid);
        assert(spoilers.to_set().subset_of(ship_positions(grid))) by {
            assert forall|i: int| spoilers.to_set().contains(i) implies ship_positions(
                grid,
            ).contains(i) by {
                let k = choose|k: int| 0 <= k < spoilers.len() && spoilers[k] == i;
                assert(ship_positions(grid).contains(spoilers[k]));
            }
        }
        lemma_len_subset(spoilers.to_set(), ship_positions(grid));
        assert(false);
    } else {
        let k = choose|k: int| 0 <= k < n && placement_valid(grid, #[trigger] probe(class, k));
        assert(probe(class, k).ship_size == class.size());
    }
}

} // verus!
