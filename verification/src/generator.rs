//! Random placement of the fleet.
//!
//! Each ship is tried at random places first. A ship that found no place in
//! `MAX_RANDOM_ATTEMPTS` draws is put at the first free place of a search over
//! the whole board, so a ship fails only where the board has no place for it.

use vstd::prelude::*;
use rand::Rng;
use rand::rngs::ThreadRng;
use crate::board::{
    lemma_cells_add_up, place_if_valid, placed_on, placement_valid, ship_at, ship_cells,
    empty_cells, valid_generated_ship, Board, Cell, Placement, BATTLESHIP, BOARD_DIMENSION,
    NUM_BIG_SHIPS, NUM_MEDIUM_SHIPS, NUM_SMALL_SHIPS, ORIENTATION,
};
use crate::room::lemma_room_for_ship;

verus! {

/// Number of random candidates drawn for one ship before the board is
/// searched place by place.
pub const MAX_RANDOM_ATTEMPTS: usize = 1000;

/// The board has no place left for a ship.
#[derive(Clone, Copy, Debug, PartialEq, Eq, Structural)]
pub struct PlacementExhaustion;

/// `rand::rngs::ThreadRng`, the handle to the thread's random number
/// generator. Nothing is known of what it holds.
#[verifier::external_type_specification]
#[verifier::external_body]
pub struct ExThreadRng(ThreadRng);

/// `rand::thread_rng` hands out the handle to the thread's generator. Nothing
/// is claimed of the handle. (The generator is seeded from the operating
/// system when a thread first asks for it.)
pub assume_specification[ rand::thread_rng ]() -> (rng: ThreadRng)
;

/// `Rng::gen_range` on the half-open range `low..high`: the number drawn lies
/// in the range. The call panics on an empty range, which `requires` leaves
/// out. Which number of the range comes is not stated: it is random.
#[verifier::external_body]
fn draw_in_range(rng: &mut ThreadRng, low: usize, high: usize) -> (drawn: usize)
    requires
        low < high,
    ensures
        low <= drawn < high,
{
    rng.gen_range(low..high)
}

/// The orientation that a draw from `1..=2` stands for: 1 is vertical.
pub fn orientation_of_draw(draw: usize) -> (orientation: ORIENTATION)
    ensures
        orientation == if draw == 1 {
            ORIENTATION::Vertical
        } else {
            ORIENTATION::Horizontal
        },
{
    if draw == 1 {
        ORIENTATION::Vertical
    } else {
        ORIENTATION::Horizontal
    }
}

/// Draws an orientation, a line and a start such that the ship lies on the
/// board.
fn draw_candidate(rng: &mut ThreadRng, ship_size: usize) -> (candidate: Placement)
    requires
        ship_size <= 10,
    ensures
        candidate.in_grid(),
        candidate.ship_size == ship_size,
{
    let orientation = orientation_of_draw(draw_in_range(rng, 1, 3));
    let row_or_col = draw_in_range(rng, 0, BOARD_DIMENSION);
    let start_index = draw_in_range(rng, 0, BOARD_DIMENSION - ship_size + 1);
    Placement { orientation, row_or_col, start_index, ship_size }
}

/// `a` is met before `b` in the search: vertical before horizontal, then by
/// line, then by start.
pub open spec fn searched_before(a: Placement, b: Placement) -> bool {
    ||| a.orientation == ORIENTATION::Vertical && b.orientation == ORIENTATION::Horizontal
    ||| a.orientation == b.orientation && a.row_or_col < b.row_or_col
    ||| a.orientation == b.orientation && a.row_or_col == b.row_or_col && a.start_index
        < b.start_index
}

/// `p` is the first free place for a ship of its size.
pub open spec fn first_free_placement(grid: Seq<Seq<Cell>>, p: Placement) -> bool {
    &&& placement_valid(grid, p)
    &&& forall|q: Placement|
        q.ship_size == p.ship_size && #[trigger] placement_valid(grid, q) ==> !searched_before(
            q,
            p,
        )
}

/// The grid has no place for a ship of this size.
pub open spec fn no_free_placement(grid: Seq<Seq<Cell>>, ship_size: usize) -> bool {
    forall|q: Placement| q.ship_size == ship_size ==> !#[trigger] placement_valid(grid, q)
}

/// Searches the lines of one orientation for the first free place.
fn search_orientation(board: &Board, ship_size: usize, orientation: ORIENTATION) -> (found: Option<
    Placement,
>)
    requires
        board.wf(),
        ship_size <= 10,
    ensures
        match found {
            Some(p) => {
                &&& p.ship_size == ship_size
                &&& p.orientation == orientation
                &&& placement_valid(board@, p)
                &&& forall|q: Placement|
                    q.ship_size == ship_size && q.orientation == orientation
                        && #[trigger] placement_valid(board@, q) ==> !searched_before(q, p)
            },
            None => forall|q: Placement|
                q.ship_size == ship_size && q.orientation == orientation ==> !#[trigger] placement_valid(
                    board@,
                    q,
                ),
        },
{
    let mut line: usize = 0;
    while line < BOARD_DIMENSION
        invariant
            board.wf(),
            ship_size <= 10,
            line <= 10,
            forall|q: Placement|
                q.ship_size == ship_size && q.orientation == orientation && q.row_or_col < line
                    ==> !#[trigger] placement_valid(board@, q),
        decreases 10 - line,
    {
        let mut start: usize = 0;
        while start <= BOARD_DIMENSION - ship_size
            invariant
                board.wf(),
                ship_size <= 10,
                line < 10,
                start <= 10 - ship_size + 1,
                forall|q: Placement|
                    q.ship_size == ship_size && q.orientation == orientation && q.row_or_col < line
                        ==> !#[trigger] placement_valid(board@, q),
                forall|q: Placement|
                    q.ship_size == ship_size && q.orientation == orientation && q.row_or_col == line
                        && q.start_index < start ==> !#[trigger] placement_valid(board@, q),
            decreases 10 - ship_size + 1 - start,
        {
            if valid_generated_ship(board, ship_size, start, line, &orientation) {
                return Some(Placement { orientation, row_or_col: line, start_index: start, ship_size });
            }
            proof {
                let tried = Placement {
                    orientation,
                    row_or_col: line,
                    start_index: start,
                    ship_size,
                };
                assert forall|q: Placement|
                    q.ship_size == ship_size && q.orientation == orientation && q.row_or_col == line
                        && q.start_index < start + 1 implies !#[trigger] placement_valid(
                    board@,
                    q,
                ) by {
                    if q.start_index == start {
                        assert(q == tried);
                    }
                }
            }
            start += 1;
        }
        line += 1;
    }
    None
}

/// The first free place for a ship of `ship_size` cells, if the board has one.
pub fn find_free_placement(board: &Board, ship_size: usize) -> (found: Option<Placement>)
    requires
        board.wf(),
    ensures
        match found {
            Some(p) => p.ship_size == ship_size && first_free_placement(board@, p),
            None => no_free_placement(board@, ship_size),
        },
{
    if ship_size > BOARD_DIMENSION {
        return None;
    }
    match search_orientation(board, ship_size, ORIENTATION::Vertical) {
        Some(p) => Some(p),
        None => search_orientation(board, ship_size, ORIENTATION::Horizontal),
    }
}

/// Puts one ship of `ship_size` cells on the board and returns its place.
///
/// The ship lands on a random free place, or, after `MAX_RANDOM_ATTEMPTS`
/// draws without one, on the first free place. It fails exactly where the
/// board has no free place for it, and then leaves the board as it was.
pub fn place_ship(board: &mut Board, ship_size: usize) -> (placed: Result<
    Placement,
    PlacementExhaustion,
>)
    requires
        old(board).wf(),
    ensures
        match placed {
            Ok(p) => {
                &&& p.ship_size == ship_size
                &&& placement_valid(old(board)@, p)
                &&& placed_on(old(board), p, final(board))
            },
            Err(_) => *final(board) == *old(board) && no_free_placement(old(board)@, ship_size),
        },
{
    if ship_size > BOARD_DIMENSION {
        return Err(PlacementExhaustion);
    }
    let mut rng = rand::thread_rng();
    let mut attempts: usize = 0;
    while attempts < MAX_RANDOM_ATTEMPTS
        invariant
            *board == *old(board),
            board.wf(),
            ship_size <= 10,
            attempts <= MAX_RANDOM_ATTEMPTS,
        decreases MAX_RANDOM_ATTEMPTS - attempts,
    {
        let candidate = draw_candidate(&mut rng, ship_size);
        if place_if_valid(board, candidate) {
            return Ok(candidate);
        }
        attempts += 1;
    }
    match find_free_placement(board, ship_size) {
        Some(p) => {
            board.place(p);
            Ok(p)
        },
        None => Err(PlacementExhaustion),
    }
}

/// `after` is `before` with `added` more ships of `ship_size` cells each:
/// the earlier ships and their cells are still there.
pub open spec fn fleet_grown(before: &Board, after: &Board, ship_size: nat, added: nat) -> bool {
    &&& after.wf()
    &&& after.fleet().len() == before.fleet().len() + added
    &&& after.fleet().subrange(0, before.fleet().len() as int) == before.fleet()
    &&& forall|k: int|
        before.fleet().len() <= k < after.fleet().len() ==> (#[trigger] after.fleet()[k]).ship_size
            == ship_size
    &&& forall|row: int, col: int|
        ship_at(before@, row, col) ==> #[trigger] ship_at(after@, row, col)
    &&& ship_cells(after@) == ship_cells(before@) + ship_size * added
    &&& after.open_cells() + ship_size * added == before.open_cells()
}

/// Puts `ship_count` ships of one class on the board, one after the other.
///
/// It stops at the first ship for which the board has no place, and leaves
/// the ships placed so far. That cannot happen while the board holds fewer
/// ship cells than `ship_type.room()` before the last ship.
pub fn initialize_battleships(board: &mut Board, ship_type: BATTLESHIP, ship_count: usize) -> (done:
    Result<(), PlacementExhaustion>)
    requires
        old(board).wf(),
    ensures
        match done {
            Ok(_) => fleet_grown(old(board), final(board), ship_type.size(), ship_count as nat),
            Err(_) => exists|added: nat|
                added < ship_count && #[trigger] fleet_grown(
                    old(board),
                    final(board),
                    ship_type.size(),
                    added,
                ) && no_free_placement(final(board)@, ship_type.size() as usize),
        },
        ship_count == 0 || ship_cells(old(board)@) + ship_type.size() * (ship_count - 1)
            < ship_type.room() ==> done is Ok,
{
    let ship_size = ship_type.get_ship_size();
    let mut placed: usize = 0;
    proof {
        assert(board.fleet().subrange(0, board.fleet().len() as int) =~= board.fleet());
    }
    while placed < ship_count
        invariant
            old(board).wf(),
            ship_size == ship_type.size(),
            placed <= ship_count,
            fleet_grown(old(board), board, ship_size as nat, placed as nat),
        decreases ship_count - placed,
    {
        let ghost current = *board;
        match place_ship(board, ship_size) {
            Ok(p) => {
                proof {
                    assert(ship_size * (placed + 1) == ship_size * placed + ship_size)
                        by (nonlinear_arith);
                    assert(board.fleet().subrange(0, old(board).fleet().len() as int)
                        =~= current.fleet().subrange(0, old(board).fleet().len() as int));
                }
            },
            Err(e) => {
                proof {
                    if ship_cells(old(board)@) + ship_type.size() * (ship_count - 1)
                        < ship_type.room() {
                        assert(ship_size * placed <= ship_size * (ship_count - 1))
                            by (nonlinear_arith)
                            requires
                                placed <= ship_count - 1,
                        ;
                        lemma_room_for_ship(board@, ship_type);
                    }
                }
                return Err(e);
            },
        }
        placed += 1;
    }
    Ok(())
}

/// Size of the `k`-th ship of the standard fleet: one ship of four cells, two
/// of two cells, four of one cell.
pub open spec fn standard_ship_size(k: int) -> nat {
    if k < 1 {
        4
    } else if k < 3 {
        2
    } else {
        1
    }
}

/// `board` carries the standard fleet of seven ships: twelve ship cells and
/// eighty-eight empty ones, each ship a straight run of its class's length on
/// the grid, no two ships sharing a cell or an edge.
pub open spec fn standard_board(board: &Board) -> bool {
    &&& board.wf()
    &&& board.fleet().len() == 7
    &&& forall|k: int| 0 <= k < 7 ==> (#[trigger] board.fleet()[k]).ship_size == standard_ship_size(k)
    &&& ship_cells(board@) == 12
    &&& empty_cells(board@) == 88
    &&& board.open_cells() == 88
}

/// A fresh board with the standard fleet at random places.
pub fn init_board() -> (board: Board)
    ensures
        standard_board(&board),
{
    let mut board_struct = Board::new();
    let big = initialize_battleships(&mut board_struct, BATTLESHIP::Big, NUM_BIG_SHIPS);
    let ghost after_big = board_struct;
    assert(big is Ok && ship_cells(after_big@) == 4) by {
        assert(BATTLESHIP::Big.size() * (NUM_BIG_SHIPS - 1) == 0);
        assert(BATTLESHIP::Big.size() * (NUM_BIG_SHIPS as nat) == 4);
    }
    let medium = initialize_battleships(&mut board_struct, BATTLESHIP::Medium, NUM_MEDIUM_SHIPS);
    let ghost after_medium = board_struct;
    assert(medium is Ok && ship_cells(after_medium@) == 8) by {
        assert(BATTLESHIP::Medium.size() * (NUM_MEDIUM_SHIPS - 1) == 2);
        assert(BATTLESHIP::Medium.size() * (NUM_MEDIUM_SHIPS as nat) == 4);
    }
    let small = initialize_battleships(&mut board_struct, BATTLESHIP::Small, NUM_SMALL_SHIPS);
    assert(small is Ok && ship_cells(board_struct@) == 12) by {
        assert(BATTLESHIP::Small.size() * (NUM_SMALL_SHIPS - 1) == 3);
        assert(BATTLESHIP::Small.size() * (NUM_SMALL_SHIPS as nat) == 4);
    }
    proof {
        lemma_cells_add_up(board_struct@);
        let fleet = board_struct.fleet();
        assert forall|k: int| 0 <= k < 7 implies (#[trigger] fleet[k]).ship_size
            == standard_ship_size(k) by {
            if k < 3 {
                assert(fleet[k] == fleet.subrange(0, 3)[k]);
                if k < 1 {
                    assert(after_medium.fleet()[k] == after_medium.fleet().subrange(0, 1)[k]);
                }
            }
        }
    }
    board_struct
}

/// A number of ships of one class, as a fleet is ordered.
#[derive(Clone, Copy, Debug, PartialEq, Eq, Structural)]
pub struct ShipOrder {
    pub ship_type: BATTLESHIP,
    pub ship_count: usize,
}

/// Number of ship cells that the orders ask for.
pub open spec fn cells_ordered(orders: Seq<ShipOrder>) -> nat
    decreases orders.len(),
{
    if orders.len() == 0 {
        0
    } else {
        cells_ordered(orders.drop_last()) + orders.last().ship_type.size()
            * (orders.last().ship_count as nat)
    }
}

/// The sizes of the ships that the orders ask for, in the order of their
/// placement.
pub open spec fn sizes_ordered(orders: Seq<ShipOrder>) -> Seq<nat>
    decreases orders.len(),
{
    if orders.len() == 0 {
        Seq::empty()
    } else {
        sizes_ordered(orders.drop_last()) + Seq::new(
            orders.last().ship_count as nat,
            |i: int| orders.last().ship_type.size(),
        )
    }
}

/// The sizes of the ships of a fleet.
pub open spec fn fleet_sizes(fleet: Seq<Placement>) -> Seq<nat> {
    Seq::new(fleet.len(), |k: int| fleet[k].ship_size as nat)
}

/// Every ship of the orders is sure of a place: when its turn comes, the
/// ships before it leave fewer ship cells on the board than its class needs
/// for room.
pub open spec fn orders_fit(orders: Seq<ShipOrder>) -> bool
    decreases orders.len(),
{
    orders.len() == 0 || {
        &&& orders_fit(orders.drop_last())
        &&& orders.last().ship_count == 0 || cells_ordered(orders.drop_last())
            + orders.last().ship_type.size() * (orders.last().ship_count - 1)
            < orders.last().ship_type.room()
    }
}

/// A fresh board with the ordered ships at random places, class after class.
///
/// Orders that fit are always served. Other orders are served unless a ship
/// finds the board without a place for it.
pub fn generate(classes: &Vec<ShipOrder>) -> (generated: Result<Board, PlacementExhaustion>)
    ensures
        match generated {
            Ok(board) => {
                &&& board.wf()
                &&& fleet_sizes(board.fleet()) == sizes_ordered(classes@)
                &&& ship_cells(board@) == cells_ordered(classes@)
                &&& empty_cells(board@) == 100 - cells_ordered(classes@)
            },
            Err(_) => !orders_fit(classes@),
        },
{
    let mut board = Board::new();
    let mut served: usize = 0;
    proof {
        assert(fleet_sizes(board.fleet()) =~= sizes_ordered(classes@.take(0)));
    }
    while served < classes.len()
        invariant
            served <= classes.len(),
            board.wf(),
            fleet_sizes(board.fleet()) == sizes_ordered(classes@.take(served as int)),
            ship_cells(board@) == cells_ordered(classes@.take(served as int)),
            orders_fit(classes@) ==> orders_fit(classes@.take(served as int)),
        decreases classes.len() - served,
    {
        let order = classes[served];
        let ghost before = board;
        let ghost done = classes@.take(served as int);
        let ghost next = classes@.take(served + 1);
        proof {
            assert(next.drop_last() =~= done);
            assert(next.last() == order);
            if orders_fit(classes@) {
                lemma_orders_fit_prefix(classes@, served + 1);
            }
        }
        match initialize_battleships(&mut board, order.ship_type, order.ship_count) {
            Ok(_) => {
                proof {
                    let added = Seq::new(
                        order.ship_count as nat,
                        |i: int| order.ship_type.size(),
                    );
                    assert(fleet_sizes(board.fleet()) =~= fleet_sizes(before.fleet()) + added) by {
                        assert forall|k: int| 0 <= k < before.fleet().len() implies
                            board.fleet()[k] == before.fleet()[k] by {
                            assert(board.fleet().subrange(0, before.fleet().len() as int)[k]
                                == before.fleet()[k]);
                        }
                    }
                }
            },
            Err(e) => {
                return Err(e);
            },
        }
        served += 1;
    }
    proof {
        assert(classes@.take(served as int) =~= classes@);
        lemma_cells_add_up(board@);
    }
    Ok(board)
}

/// Orders that fit still fit when the last of them are left out.
proof fn lemma_orders_fit_prefix(orders: Seq<ShipOrder>, n: int)
    requires
        0 <= n <= orders.len(),
        orders_fit(orders),
    ensures
        orders_fit(orders.take(n)),
    decreases orders.len(),
{
    if n < orders.len() {
        lemma_orders_fit_prefix(orders.drop_last(), n);
        assert(orders.drop_last().take(n) =~= orders.take(n));
    } else {
        assert(orders.take(n) =~= orders);
    }
}

/// The orders of the standard fleet: every class with its number of ships,
/// from the biggest class to the smallest.
pub open spec fn standard_orders() -> Seq<ShipOrder> {
    seq![
        ShipOrder { ship_type: BATTLESHIP::Big, ship_count: 1 },
        ShipOrder { ship_type: BATTLESHIP::Medium, ship_count: 2 },
        ShipOrder { ship_type: BATTLESHIP::Small, ship_count: 4 },
    ]
}

/// The orders of the standard fleet.
pub fn standard_fleet() -> (orders: Vec<ShipOrder>)
    ensures
        orders@ == standard_orders(),
{
    let mut orders: Vec<ShipOrder> = Vec::new();
    orders.push(
        ShipOrder { ship_type: BATTLESHIP::Big, ship_count: BATTLESHIP::Big.get_ship_count() },
    );
    orders.push(
        ShipOrder {
            ship_type: BATTLESHIP::Medium,
            ship_count: BATTLESHIP::Medium.get_ship_count(),
        },
    );
    orders.push(
        ShipOrder { ship_type: BATTLESHIP::Small, ship_count: BATTLESHIP::Small.get_ship_count() },
    );
    assert(orders@ =~= standard_orders());
    orders
}

/// The standard fleet always fits: twelve ship cells, and room for every
/// ship when its turn comes.
pub proof fn lemma_standard_orders_fit()
    ensures
        orders_fit(standard_orders()),
        cells_ordered(standard_orders()) == 12,
{
    let all = standard_orders();
    let two = seq![
        ShipOrder { ship_type: BATTLESHIP::Big, ship_count: 1 },
        ShipOrder { ship_type: BATTLESHIP::Medium, ship_count: 2 },
    ];
    let one = seq![ShipOrder { ship_type: BATTLESHIP::Big, ship_count: 1 }];
    let none = Seq::<ShipOrder>::empty();
    assert(all.drop_last() =~= two);
    assert(two.drop_last() =~= one);
    assert(one.drop_last() =~= none);
    assert(cells_ordered(none) == 0);
    assert(cells_ordered(one) == 4) by {
        assert(one.last().ship_type.size() == 4 && one.last().ship_count == 1);
    }
    assert(cells_ordered(two) == 8) by {
        assert(two.last().ship_type.size() == 2 && two.last().ship_count == 2);
    }
    assert(cells_ordered(all) == 12) by {
        assert(all.last().ship_type.size() == 1 && all.last().ship_count == 4);
    }
    assert(orders_fit(none));
    assert(orders_fit(one));
    assert(orders_fit(two));
}

} // verus!
