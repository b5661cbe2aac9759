//! The grid, the ship classes and the placements of ships on the grid.

use vstd::prelude::*;
use vstd::set_lib::*;

verus! {

/// Number of rows, and of columns, of a board.
pub const BOARD_DIMENSION: usize = 10;

/// Number of big ships in a fleet.
pub const NUM_BIG_SHIPS: usize = 1;

/// Number of cells of a big ship.
pub const BIG_SHIP_SIZE: usize = 4;

/// Number of medium ships in a fleet.
pub const NUM_MEDIUM_SHIPS: usize = 2;

/// Number of cells of a medium ship.
pub const MEDIUM_SHIP_SIZE: usize = 2;

/// Number of small ships in a fleet.
pub const NUM_SMALL_SHIPS: usize = 4;

/// Number of cells of a small ship.
pub const SMALL_SHIP_SIZE: usize = 1;

/// What one square of a board holds.
#[derive(Clone, Copy, Debug, PartialEq, Eq, Structural)]
pub enum Cell {
    Empty,
    Ship,
}

/// Direction in which a ship extends from its first cell.
///
/// A vertical ship stays in one column and runs down the rows; a horizontal
/// ship stays in one row and runs along the columns.
#[allow(non_camel_case_types)]
#[derive(Clone, Copy, Debug, PartialEq, Eq, Structural)]
pub enum ORIENTATION {
    Vertical,
    Horizontal,
}

/// The three classes of ship.
#[allow(non_camel_case_types)]
#[derive(Clone, Copy, Debug, PartialEq, Eq, Structural)]
pub enum BATTLESHIP {
    Big,
    Medium,
    Small,
}

impl BATTLESHIP {
    /// Number of cells that a ship of this class occupies.
    pub open spec fn size(self) -> nat {
        match self {
            BATTLESHIP::Big => 4,
            BATTLESHIP::Medium => 2,
            BATTLESHIP::Small => 1,
        }
    }

    /// Number of ships of this class in a player's fleet.
    pub open spec fn fleet_count(self) -> nat {
        match self {
            BATTLESHIP::Big => 1,
            BATTLESHIP::Medium => 2,
            BATTLESHIP::Small => 4,
        }
    }

    /// Number of cells that a ship of this class occupies.
    pub fn get_ship_size(&self) -> (size: usize)
        ensures
            size == self.size(),
    {
        match self {
            BATTLESHIP::Big => BIG_SHIP_SIZE,
            BATTLESHIP::Medium => MEDIUM_SHIP_SIZE,
            BATTLESHIP::Small => SMALL_SHIP_SIZE,
        }
    }

    /// Number of ships of this class in a player's fleet.
    pub fn get_ship_count(&self) -> (count: usize)
        ensures
            count == self.fleet_count(),
    {
        match self {
            BATTLESHIP::Big => NUM_BIG_SHIPS,
            BATTLESHIP::Medium => NUM_MEDIUM_SHIPS,
            BATTLESHIP::Small => NUM_SMALL_SHIPS,
        }
    }
}

/// A straight run of `ship_size` cells, the shape of one ship.
///
/// `row_or_col` is the column of a vertical ship and the row of a horizontal
/// one; the ship occupies the positions `start_index .. start_index +
/// ship_size` along the other axis.
#[derive(Clone, Copy, Debug, PartialEq, Eq, Structural)]
pub struct Placement {
    pub orientation: ORIENTATION,
    pub row_or_col: usize,
    pub start_index: usize,
    pub ship_size: usize,
}

impl Placement {
    /// The whole run lies on the board.
    pub open spec fn in_grid(self) -> bool {
        self.row_or_col < 10 && self.start_index + self.ship_size <= 10
    }

    /// The run occupies the cell at (`row`, `col`).
    pub open spec fn covers(self, row: int, col: int) -> bool {
        match self.orientation {
            ORIENTATION::Vertical => col == self.row_or_col && self.start_index <= row
                < self.start_index + self.ship_size,
            ORIENTATION::Horizontal => row == self.row_or_col && self.start_index <= col
                < self.start_index + self.ship_size,
        }
    }

    /// Row of the cell at position `along` of the ship's axis.
    pub open spec fn row_at(self, along: int) -> int {
        match self.orientation {
            ORIENTATION::Vertical => along,
            ORIENTATION::Horizontal => self.row_or_col as int,
        }
    }

    /// Column of the cell at position `along` of the ship's axis.
    pub open spec fn col_at(self, along: int) -> int {
        match self.orientation {
            ORIENTATION::Vertical => self.row_or_col as int,
            ORIENTATION::Horizontal => along,
        }
    }
}

/// (`row`, `col`) names a cell of the board.
pub open spec fn in_grid(row: int, col: int) -> bool {
    0 <= row < 10 && 0 <= col < 10
}

/// The two cells share an edge.
pub open spec fn adjacent(r1: int, c1: int, r2: int, c2: int) -> bool {
    ||| r1 == r2 && (c1 == c2 + 1 || c2 == c1 + 1)
    ||| c1 == c2 && (r1 == r2 + 1 || r2 == r1 + 1)
}

/// No cell of `a` is a cell of `b` or shares an edge with one: the two ships
/// keep a one-cell buffer. Cells that meet only at a corner are apart.
pub open spec fn apart(a: Placement, b: Placement) -> bool {
    forall|r1: int, c1: int, r2: int, c2: int|
        #[trigger] a.covers(r1, c1) && #[trigger] b.covers(r2, c2) ==> !(r1 == r2 && c1 == c2)
            && !adjacent(r1, c1, r2, c2)
}

/// Ten rows of ten cells.
pub open spec fn is_grid(grid: Seq<Seq<Cell>>) -> bool {
    &&& grid.len() == 10
    &&& forall|row: int| 0 <= row < 10 ==> (#[trigger] grid[row]).len() == 10
}

/// The cell at (`row`, `col`) is on the board and holds a ship.
pub open spec fn ship_at(grid: Seq<Seq<Cell>>, row: int, col: int) -> bool {
    in_grid(row, col) && grid[row][col] == Cell::Ship
}

/// One of the four orthogonal neighbours of (`row`, `col`) holds a ship.
pub open spec fn near_ship(grid: Seq<Seq<Cell>>, row: int, col: int) -> bool {
    ||| ship_at(grid, row - 1, col)
    ||| ship_at(grid, row + 1, col)
    ||| ship_at(grid, row, col - 1)
    ||| ship_at(grid, row, col + 1)
}

/// The cell is empty and so are its four neighbours.
pub open spec fn cell_clear(grid: Seq<Seq<Cell>>, row: int, col: int) -> bool {
    !ship_at(grid, row, col) && !near_ship(grid, row, col)
}

/// A ship may be put at `p`: the run lies on the board, and every cell of it
/// is empty and has no ship on any of its four sides.
pub open spec fn placement_valid(grid: Seq<Seq<Cell>>, p: Placement) -> bool {
    &&& p.in_grid()
    &&& forall|row: int, col: int| #[trigger] p.covers(row, col) ==> cell_clear(grid, row, col)
}

/// Some ship of the fleet occupies (`row`, `col`).
pub open spec fn fleet_covers(fleet: Seq<Placement>, row: int, col: int) -> bool {
    exists|k: int| 0 <= k < fleet.len() && (#[trigger] fleet[k]).covers(row, col)
}

/// Positions of the cells that hold a ship; the cell at (`row`, `col`) has the
/// position `10 * row + col`.
pub open spec fn ship_positions(grid: Seq<Seq<Cell>>) -> Set<int> {
    Set::new(|i: int| 0 <= i < 100 && grid[i / 10][i % 10] == Cell::Ship)
}

/// Positions of the empty cells.
pub open spec fn empty_positions(grid: Seq<Seq<Cell>>) -> Set<int> {
    Set::new(|i: int| 0 <= i < 100 && grid[i / 10][i % 10] == Cell::Empty)
}

/// Number of cells that hold a ship.
pub open spec fn ship_cells(grid: Seq<Seq<Cell>>) -> nat {
    ship_positions(grid).len()
}

/// Number of empty cells.
pub open spec fn empty_cells(grid: Seq<Seq<Cell>>) -> nat {
    empty_positions(grid).len()
}

/// Both sets of positions are finite, and together they count the hundred
/// cells of the board.
pub proof fn lemma_cells_add_up(grid: Seq<Seq<Cell>>)
    ensures
        ship_positions(grid).finite(),
        empty_positions(grid).finite(),
        ship_cells(grid) + empty_cells(grid) == 100,
        ship_cells(grid) <= 100,
{
    let all = set_int_range(0, 100);
    let ships = ship_positions(grid);
    let empties = empty_positions(grid);
    lemma_int_range(0, 100);
    assert(ships.subset_of(all));
    assert(empties.subset_of(all));
    lemma_len_subset(ships, all);
    lemma_len_subset(empties, all);
    assert(ships.disjoint(empties));
    lemma_set_disjoint_lens(ships, empties);
    assert(ships + empties =~= all) by {
        assert forall|i: int| all.contains(i) implies (ships + empties).contains(i) by {
            match grid[i / 10][i % 10] {
                Cell::Ship => {
                    assert(ships.contains(i));
                },
                Cell::Empty => {
                    assert(empties.contains(i));
                },
            }
        }
    }
}

/// Adding a ship to a fleet adds exactly its cells to the covered cells.
pub proof fn lemma_fleet_covers_push(fleet: Seq<Placement>, p: Placement, row: int, col: int)
    ensures
        fleet_covers(fleet.push(p), row, col) <==> fleet_covers(fleet, row, col) || p.covers(
            row,
            col,
        ),
{
    let longer = fleet.push(p);
    if fleet_covers(fleet, row, col) {
        let k = choose|k: int| 0 <= k < fleet.len() && (#[trigger] fleet[k]).covers(row, col);
        assert(longer[k].covers(row, col));
    }
    if p.covers(row, col) {
        assert(longer[fleet.len() as int].covers(row, col));
    }
    if fleet_covers(longer, row, col) {
        let k = choose|k: int| 0 <= k < longer.len() && (#[trigger] longer[k]).covers(row, col);
        if k < fleet.len() {
            assert(fleet[k].covers(row, col));
        }
    }
}

/// A ship put where `placement_valid` allows keeps the one-cell buffer to
/// every ship whose cells the grid shows.
pub proof fn lemma_valid_is_apart(grid: Seq<Seq<Cell>>, placed: Placement, p: Placement)
    requires
        placed.in_grid(),
        placement_valid(grid, p),
        forall|row: int, col: int| #[trigger] placed.covers(row, col) ==> ship_at(grid, row, col),
    ensures
        apart(placed, p),
        apart(p, placed),
{
    assert forall|r1: int, c1: int, r2: int, c2: int| #[trigger]
        placed.covers(r1, c1) && #[trigger] p.covers(r2, c2) implies !(r1 == r2 && c1 == c2)
        && !adjacent(r1, c1, r2, c2) by {
        assert(ship_at(grid, r1, c1));
        assert(cell_clear(grid, r2, c2));
    }
    assert forall|r1: int, c1: int, r2: int, c2: int| #[trigger]
        p.covers(r1, c1) && #[trigger] placed.covers(r2, c2) implies !(r1 == r2 && c1 == c2)
        && !adjacent(r1, c1, r2, c2) by {
        assert(ship_at(grid, r2, c2));
        assert(cell_clear(grid, r1, c1));
    }
}

/// One player's board: the grid, the ships that were put on it, in the order
/// of their placement, and the number of cells that are still open.
#[derive(Debug)]
pub struct Board {
    cells: Vec<Cell>,
    ships: Vec<Placement>,
    open_space_left: usize,
}

impl View for Board {
    type V = Seq<Seq<Cell>>;

    /// The grid as ten rows of ten cells.
    closed spec fn view(&self) -> Seq<Seq<Cell>> {
        Seq::new(10, |row: int| Seq::new(10, |col: int| self.cells@[row * 10 + col]))
    }
}

impl Board {
    /// The ships on the board, in the order in which they were placed.
    pub closed spec fn fleet(&self) -> Seq<Placement> {
        self.ships@
    }

    /// The recorded number of open cells.
    pub closed spec fn open_cells(&self) -> nat {
        self.open_space_left as nat
    }

    /// The storage holds one entry for each of the hundred cells.
    pub closed spec fn stored(&self) -> bool {
        self.cells@.len() == 100
    }

    /// The board's invariant: every ship lies on the grid, any two ships keep
    /// the one-cell buffer, the cells that hold a ship are exactly the cells
    /// of the fleet, and the recorded number of open cells is the number of
    /// empty cells.
    pub open spec fn wf(&self) -> bool {
        &&& self.stored()
        &&& is_grid(self@)
        &&& forall|k: int| 0 <= k < self.fleet().len() ==> (#[trigger] self.fleet()[k]).in_grid()
        &&& forall|i: int, j: int|
            0 <= i < j < self.fleet().len() ==> apart(
                #[trigger] self.fleet()[i],
                #[trigger] self.fleet()[j],
            )
        &&& forall|row: int, col: int|
            #![trigger ship_at(self@, row, col)]
            #![trigger fleet_covers(self.fleet(), row, col)]
            ship_at(self@, row, col) <==> fleet_covers(self.fleet(), row, col)
        &&& self.open_cells() == empty_cells(self@)
    }

    /// What the view shows at a cell is what the storage holds for it.
    proof fn lemma_view_cell(&self, row: int, col: int)
        requires
            in_grid(row, col),
        ensures
            self@[row][col] == self.cells@[row * 10 + col],
            is_grid(self@),
    {
    }

    /// A board without ships.
    pub fn new() -> (board: Board)
        ensures
            board.wf(),
            board.fleet() == Seq::<Placement>::empty(),
            forall|row: int, col: int| !ship_at(board@, row, col),
            ship_cells(board@) == 0,
            board.open_cells() == 100,
    {
        let mut cells: Vec<Cell> = Vec::new();
        let mut i: usize = 0;
        while i < BOARD_DIMENSION * BOARD_DIMENSION
            invariant
                i <= 100,
                cells@.len() == i,
                forall|k: int| 0 <= k < i ==> cells@[k] == Cell::Empty,
            decreases 100 - i,
        {
            cells.push(Cell::Empty);
            i += 1;
        }
        let board = Board {
            cells,
            ships: Vec::new(),
            open_space_left: BOARD_DIMENSION * BOARD_DIMENSION,
        };
        proof {
            assert forall|row: int, col: int| !ship_at(board@, row, col) by {
                if in_grid(row, col) {
                    board.lemma_view_cell(row, col);
                }
            }
            lemma_int_range(0, 100);
            assert(ship_positions(board@) =~= Set::<int>::empty());
            assert(empty_positions(board@) =~= set_int_range(0, 100)) by {
                assert forall|k: int| 0 <= k < 100 implies empty_positions(board@).contains(k) by {
                    board.lemma_view_cell(k / 10, k % 10);
                }
            }
        }
        board
    }

    /// Whether the cell at (`row`, `col`) holds a ship; a cell off the board
    /// holds none.
    pub fn is_ship(&self, row: usize, col: usize) -> (b: bool)
        requires
            self.wf(),
        ensures
            b == ship_at(self@, row as int, col as int),
    {
        if row < BOARD_DIMENSION && col < BOARD_DIMENSION {
            proof {
                self.lemma_view_cell(row as int, col as int);
            }
            match self.cells[row * BOARD_DIMENSION + col] {
                Cell::Ship => true,
                Cell::Empty => false,
            }
        } else {
            false
        }
    }
}

/// Whether one of the four orthogonal neighbours of (`row`, `col`) holds a
/// ship. Neighbours off the board hold none; diagonal neighbours do not
/// count.
pub fn is_near_another_ship(board: &Board, row: usize, col: usize) -> (near: bool)
    requires
        board.wf(),
    ensures
        near == near_ship(board@, row as int, col as int),
{
    if row > 0 && board.is_ship(row - 1, col) {
        return true;
    } else if row < BOARD_DIMENSION - 1 && board.is_ship(row + 1, col) {
        return true;
    } else if col > 0 && board.is_ship(row, col - 1) {
        return true;
    } else if col < BOARD_DIMENSION - 1 && board.is_ship(row, col + 1) {
        return true;
    }
    return false;
}

/// Whether a ship of `ship_size` cells may be put at `start_index` of the
/// line `row_or_col` in the given orientation.
pub fn valid_generated_ship(
    board: &Board,
    ship_size: usize,
    start_index: usize,
    row_or_col: usize,
    ship_orientation: &ORIENTATION,
) -> (valid: bool)
    requires
        board.wf(),
    ensures
        valid == placement_valid(
            board@,
            (Placement { orientation: *ship_orientation, row_or_col, start_index, ship_size }),
        ),
{
    let ghost p = Placement { orientation: *ship_orientation, row_or_col, start_index, ship_size };
    if row_or_col >= BOARD_DIMENSION || ship_size > BOARD_DIMENSION || start_index
        > BOARD_DIMENSION - ship_size {
        return false;
    }
    let mut i: usize = start_index;
    while i < start_index + ship_size
        invariant
            board.wf(),
            p == (Placement { orientation: *ship_orientation, row_or_col, start_index, ship_size }),
            p.in_grid(),
            start_index <= i <= start_index + ship_size,
            forall|along: int|
                start_index <= along < i ==> #[trigger] cell_clear(
                    board@,
                    p.row_at(along),
                    p.col_at(along),
                ),
        decreases start_index + ship_size - i,
    {
        let (row, col) = match ship_orientation {
            ORIENTATION::Vertical => (i, row_or_col),
            ORIENTATION::Horizontal => (row_or_col, i),
        };
        if board.is_ship(row, col) || is_near_another_ship(board, row, col) {
            assert(p.covers(row as int, col as int));
            return false;
        }
        i += 1;
    }
    proof {
        assert forall|row: int, col: int| #[trigger] p.covers(row, col) implies cell_clear(
            board@,
            row,
            col,
        ) by {
            let along = match p.orientation {
                ORIENTATION::Vertical => row,
                ORIENTATION::Horizontal => col,
            };
            assert(cell_clear(board@, p.row_at(along), p.col_at(along)));
        }
    }
    true
}

/// The first `count` cells of `p`.
spec fn head(p: Placement, count: int) -> Placement {
    Placement { ship_size: count as usize, ..p }
}

impl Board {
    /// Puts a ship on the board: marks its cells, appends it to the fleet and
    /// takes its cells off the count of open cells.
    pub fn place(&mut self, p: Placement)
        requires
            old(self).wf(),
            placement_valid(old(self)@, p),
        ensures
            final(self).wf(),
            final(self).fleet() == old(self).fleet().push(p),
            forall|row: int, col: int| #[trigger]
                ship_at(final(self)@, row, col) <==> ship_at(old(self)@, row, col) || p.covers(
                    row,
                    col,
                ),
            ship_cells(final(self)@) == ship_cells(old(self)@) + p.ship_size,
            final(self).open_cells() + p.ship_size == old(self).open_cells(),
    {
        let ghost before = self@;
        let ghost before_cells = self.cells@;
        proof {
            lemma_cells_add_up(before);
        }
        let mut i: usize = 0;
        while i < p.ship_size
            invariant
                i <= p.ship_size,
                p.in_grid(),
                placement_valid(before, p),
                before == old(self)@,
                before_cells == old(self).cells@,
                before_cells.len() == 100,
                self.cells@.len() == 100,
                self.ships@ == old(self).ships@,
                self.open_space_left == old(self).open_space_left,
                forall|k: int|
                    0 <= k < 100 ==> #[trigger] self.cells@[k] == (if head(p, i as int).covers(
                        k / 10,
                        k % 10,
                    ) {
                        Cell::Ship
                    } else {
                        before_cells[k]
                    }),
                ship_positions(self@).finite(),
                ship_positions(self@).len() == ship_positions(before).len() + i,
            decreases p.ship_size - i,
        {
            let along = p.start_index + i;
            let (row, col) = match p.orientation {
                ORIENTATION::Vertical => (along, p.row_or_col),
                ORIENTATION::Horizontal => (p.row_or_col, along),
            };
            let index = row * BOARD_DIMENSION + col;
            let ghost grid_before = self@;
            let ghost cells_before = self.cells@;
            proof {
                assert(p.covers(row as int, col as int));
                assert(cell_clear(before, row as int, col as int));
                assert(!head(p, i as int).covers(row as int, col as int));
                old(self).lemma_view_cell(row as int, col as int);
                assert(index / 10 == row && index % 10 == col);
                assert(cells_before[index as int] == Cell::Empty);
                self.lemma_view_cell(row as int, col as int);
                assert(!ship_positions(grid_before).contains(index as int));
            }
            self.cells.set(index, Cell::Ship);
            proof {
                assert forall|k: int| 0 <= k < 100 implies #[trigger] self.cells@[k] == (if head(
                    p,
                    i + 1,
                ).covers(k / 10, k % 10) {
                    Cell::Ship
                } else {
                    before_cells[k]
                }) by {
                    if k == index {
                        assert(head(p, i + 1).covers(row as int, col as int));
                    } else {
                        assert(head(p, i + 1).covers(k / 10, k % 10) == head(p, i as int).covers(
                            k / 10,
                            k % 10,
                        ));
                    }
                }
                assert(ship_positions(self@) =~= ship_positions(grid_before).insert(index as int))
                    by {
                    assert forall|k: int| 0 <= k < 100 implies (self@[k / 10][k % 10]
                        == cells_before.update(index as int, Cell::Ship)[k]) by {
                        self.lemma_view_cell(k / 10, k % 10);
                    }
                    assert forall|k: int| 0 <= k < 100 implies (grid_before[k / 10][k % 10]
                        == cells_before[k]) by {
                        assert(grid_before[k / 10][k % 10] == cells_before[(k / 10) * 10 + k % 10]);
                    }
                }
            }
            i += 1;
        }
        proof {
            lemma_cells_add_up(self@);
            assert(head(p, p.ship_size as int) == p);
        }
        self.ships.push(p);
        self.open_space_left = self.open_space_left - p.ship_size;
        proof {
            let fleet = old(self).fleet();
            assert forall|row: int, col: int| #[trigger]
                ship_at(self@, row, col) <==> ship_at(before, row, col) || p.covers(row, col) by {
                if in_grid(row, col) {
                    self.lemma_view_cell(row, col);
                    old(self).lemma_view_cell(row, col);
                }
            }
            assert forall|row: int, col: int|
                ship_at(self@, row, col) <==> fleet_covers(self.fleet(), row, col) by {
                lemma_fleet_covers_push(fleet, p, row, col);
            }
            assert forall|i: int, j: int| 0 <= i < j < self.fleet().len() implies apart(
                #[trigger] self.fleet()[i],
                #[trigger] self.fleet()[j],
            ) by {
                if j == fleet.len() {
                    let placed = fleet[i];
                    assert forall|row: int, col: int| #[trigger]
                        placed.covers(row, col) implies ship_at(before, row, col) by {
                        assert(fleet_covers(fleet, row, col));
                    }
                    lemma_valid_is_apart(before, placed, p);
                } else {
                    assert(apart(fleet[i], fleet[j]));
                }
            }
        }
    }
}

/// `after` is `before` with the ship `p` put on it: the ship's cells are
/// marked, the ship ends the fleet, and its cells have left the open cells.
pub open spec fn placed_on(before: &Board, p: Placement, after: &Board) -> bool {
    &&& after.wf()
    &&& after.fleet() == before.fleet().push(p)
    &&& forall|row: int, col: int| #[trigger]
        ship_at(after@, row, col) <==> ship_at(before@, row, col) || p.covers(row, col)
    &&& ship_cells(after@) == ship_cells(before@) + p.ship_size
    &&& after.open_cells() + p.ship_size == before.open_cells()
}

/// Puts the candidate on the board if it may stand there, and says whether it
/// did. A candidate that may not stand there leaves the board as it was.
pub fn place_if_valid(board: &mut Board, candidate: Placement) -> (placed: bool)
    requires
        old(board).wf(),
    ensures
        placed == placement_valid(old(board)@, candidate),
        placed ==> placed_on(old(board), candidate, final(board)),
        !placed ==> *final(board) == *old(board),
{
    if valid_generated_ship(
        board,
        candidate.ship_size,
        candidate.start_index,
        candidate.row_or_col,
        &candidate.orientation,
    ) {
        board.place(candidate);
        true
    } else {
        false
    }
}

impl Board {
    /// Number of ships on the board.
    pub fn num_ships(&self) -> (count: usize)
        ensures
            count == self.fleet().len(),
    {
        self.ships.len()
    }

    /// Number of cells that hold no ship.
    pub fn open_space_left(&self) -> (open: usize)
        requires
            self.wf(),
        ensures
            open == self.open_cells(),
            open == empty_cells(self@),
    {
        self.open_space_left
    }

    /// Number of cells that hold a ship.
    pub fn ship_cell_count(&self) -> (count: usize)
        requires
            self.wf(),
        ensures
            count == ship_cells(self@),
    {
        proof {
            lemma_cells_add_up(self@);
        }
        BOARD_DIMENSION * BOARD_DIMENSION - self.open_space_left
    }

    /// The ships on the board, in the order in which they were placed.
    pub fn ships(&self) -> (ships: &Vec<Placement>)
        ensures
            ships@ == self.fleet(),
    {
        &self.ships
    }

    /// What the cell at (`row`, `col`) holds; nothing for a cell off the
    /// board.
    pub fn get(&self, row: usize, col: usize) -> (cell: Option<Cell>)
        requires
            self.wf(),
        ensures
            cell == if in_grid(row as int, col as int) {
                Some(self@[row as int][col as int])
            } else {
                None
            },
    {
        if row < BOARD_DIMENSION && col < BOARD_DIMENSION {
            proof {
                self.lemma_view_cell(row as int, col as int);
            }
            Some(self.cells[row * BOARD_DIMENSION + col])
        } else {
            None
        }
    }
}

/// On a well-formed board two ship cells that share an edge belong to the
/// same ship: ships never touch edge to edge.
pub proof fn lemma_touching_cells_share_a_ship(board: &Board, r1: int, c1: int, r2: int, c2: int)
    requires
        board.wf(),
        ship_at(board@, r1, c1),
        ship_at(board@, r2, c2),
        adjacent(r1, c1, r2, c2),
    ensures
        exists|k: int|
            0 <= k < board.fleet().len() && (#[trigger] board.fleet()[k]).covers(r1, c1)
                && board.fleet()[k].covers(r2, c2),
{
    let fleet = board.fleet();
    assert(fleet_covers(fleet, r1, c1));
    assert(fleet_covers(fleet, r2, c2));
    let i = choose|k: int| 0 <= k < fleet.len() && (#[trigger] fleet[k]).covers(r1, c1);
    let j = choose|k: int| 0 <= k < fleet.len() && (#[trigger] fleet[k]).covers(r2, c2);
    if i < j {
        assert(apart(fleet[i], fleet[j]));
    } else if j < i {
        assert(apart(fleet[j], fleet[i]));
    }
}

/// On a well-formed board every ship cell belongs to exactly one ship.
pub proof fn lemma_cell_has_one_ship(board: &Board, row: int, col: int, i: int, j: int)
    requires
        board.wf(),
        0 <= i < board.fleet().len(),
        0 <= j < board.fleet().len(),
        board.fleet()[i].covers(row, col),
        board.fleet()[j].covers(row, col),
    ensures
        i == j,
{
    if i < j {
        assert(apart(board.fleet()[i], board.fleet()[j]));
    } else if j < i {
        assert(apart(board.fleet()[j], board.fleet()[i]));
    }
}

} // verus!
