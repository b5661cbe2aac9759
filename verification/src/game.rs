//! The state of one match and the rule by which it takes the players' moves.

use vstd::prelude::*;
use crate::board::{in_grid, Board, BOARD_DIMENSION};
use crate::codec::{decode_move, submitted_move, Move};
use crate::generator::{init_board, standard_board};

verus! {

/// Why a move was not taken.
#[derive(Clone, Copy, Debug, PartialEq, Eq, Structural)]
pub enum MoveError {
    /// The message is no move.
    ProtocolViolation,
    /// The move aims at a cell off the board.
    OutOfBounds,
}

/// The answer to a move that was taken.
#[derive(Clone, Copy, Debug, PartialEq, Eq, Structural)]
pub enum Ack {
    Turn,
}

impl Ack {
    /// The text that an acknowledgement carries.
    pub open spec fn text(self) -> Seq<char> {
        "turn"@
    }

    /// The text that tells the player of the acknowledgement.
    pub fn payload(&self) -> (payload: String)
        ensures
            payload@ == self.text(),
    {
        "turn".to_string()
    }
}

/// How far a match has come.
#[derive(Clone, Copy, Debug, PartialEq, Eq, Structural)]
pub enum Phase {
    WaitingForSecondPlayer,
    Active,
}

/// One match: the boards of the two players, whose turn it is, how many
/// players have connected, and every move taken so far, in the order in
/// which it came.
#[derive(Debug)]
pub struct Match {
    player_1_board: Board,
    player_2_board: Board,
    player_1_turn: bool,
    player_count: usize,
    moves: Vec<Move>,
}

impl Match {
    /// The moves taken so far, oldest first.
    pub closed spec fn log(&self) -> Seq<Move> {
        self.moves@
    }

    /// The board of the first player.
    pub closed spec fn board_1(&self) -> Board {
        self.player_1_board
    }

    /// The board of the second player.
    pub closed spec fn board_2(&self) -> Board {
        self.player_2_board
    }

    /// The number of the player whose turn it is.
    pub closed spec fn current_turn(&self) -> nat {
        if self.player_1_turn {
            1
        } else {
            2
        }
    }

    /// Number of players that have connected.
    pub closed spec fn players(&self) -> nat {
        self.player_count as nat
    }

    /// The match is active once two players have connected.
    pub open spec fn phase(&self) -> Phase {
        if self.players() < 2 {
            Phase::WaitingForSecondPlayer
        } else {
            Phase::Active
        }
    }

    /// Both boards carry the standard fleet.
    pub open spec fn wf(&self) -> bool {
        standard_board(&self.board_1()) && standard_board(&self.board_2())
    }

    /// The moves taken so far, oldest first.
    pub fn moves(&self) -> (moves: &Vec<Move>)
        ensures
            moves@ == self.log(),
    {
        &self.moves
    }

    /// The board of the given player: the first player's for 1, the second
    /// player's for any other number.
    pub fn board_of(&self, player_number: usize) -> (board: &Board)
        ensures
            *board == if player_number == 1 {
                self.board_1()
            } else {
                self.board_2()
            },
    {
        if player_number == 1 {
            &self.player_1_board
        } else {
            &self.player_2_board
        }
    }

    /// How far the match has come.
    pub fn current_phase(&self) -> (phase: Phase)
        ensures
            phase == self.phase(),
    {
        if self.player_count < 2 {
            Phase::WaitingForSecondPlayer
        } else {
            Phase::Active
        }
    }

    /// Admits a player and hands out the player's number: 1 for the first
    /// to connect, 2 for the second, and so on. Nothing else changes. No
    /// player is admitted once the numbers have run out.
    pub fn connect(&mut self) -> (player_number: Option<usize>)
        ensures
            final(self).log() == old(self).log(),
            final(self).board_1() == old(self).board_1(),
            final(self).board_2() == old(self).board_2(),
            final(self).current_turn() == old(self).current_turn(),
            match player_number {
                Some(n) => n == old(self).players() + 1 && final(self).players() == n,
                None => old(self).players() == usize::MAX && *final(self) == *old(self),
            },
    {
        if self.player_count == usize::MAX {
            return None;
        }
        self.player_count = self.player_count + 1;
        Some(self.player_count)
    }

    /// The number of the player whose turn it is.
    pub fn turn(&self) -> (player_number: usize)
        ensures
            player_number == self.current_turn(),
    {
        if self.player_1_turn {
            1
        } else {
            2
        }
    }
}

/// Starts a match: a fresh board for each player, the first player to move,
/// no move taken yet.
pub fn create_match() -> (game: Match)
    ensures
        game.wf(),
        game.current_turn() == 1,
        game.players() == 0,
        game.log() == Seq::<Move>::empty(),
{
    Match {
        player_1_board: init_board(),
        player_2_board: init_board(),
        player_1_turn: true,
        player_count: 0,
        moves: Vec::new(),
    }
}

/// `after` is `before` with one more move at the end of its log, and nothing
/// else changed.
pub open spec fn move_logged(before: &Match, after: &Match, m: Move) -> bool {
    &&& after.log() == before.log().push(m)
    &&& after.log().len() == before.log().len() + 1
    &&& after.board_1() == before.board_1()
    &&& after.board_2() == before.board_2()
    &&& after.current_turn() == before.current_turn()
    &&& after.players() == before.players()
}

/// Takes a move of any player at any time: a move at a cell of the board is
/// appended to the log and acknowledged; a move off the board is refused and
/// leaves the match as it was.
pub fn submit_move(game: &mut Match, player_number: usize, row: usize, col: usize) -> (taken:
    Result<Ack, MoveError>)
    ensures
        in_grid(row as int, col as int) ==> taken == Ok::<Ack, MoveError>(Ack::Turn)
            && move_logged(old(game), final(game), (Move { player_number, row, col })),
        !in_grid(row as int, col as int) ==> taken == Err::<Ack, MoveError>(
            MoveError::OutOfBounds,
        ) && *final(game) == *old(game),
{
    if row >= BOARD_DIMENSION || col >= BOARD_DIMENSION {
        return Err(MoveError::OutOfBounds);
    }
    game.moves.push(Move { player_number, row, col });
    Ok(Ack::Turn)
}

/// What becomes of a message of a client: a text that is no move is a
/// protocol violation, a move off the board is out of bounds, and any other
/// move is taken.
pub open spec fn message_outcome(message: Seq<char>) -> Result<Move, MoveError> {
    match submitted_move(message) {
        Some(m) => if in_grid(m.row as int, m.col as int) {
            Ok(m)
        } else {
            Err(MoveError::OutOfBounds)
        },
        None => Err(MoveError::ProtocolViolation),
    }
}

/// Handles one message of a client: reads the move and takes it. A message
/// that is refused leaves the match as it was.
pub fn handle_client_message(game: &mut Match, message: &str) -> (taken: Result<Ack, MoveError>)
    ensures
        match message_outcome(message@) {
            Ok(m) => taken == Ok::<Ack, MoveError>(Ack::Turn) && move_logged(
                old(game),
                final(game),
                m,
            ),
            Err(e) => taken == Err::<Ack, MoveError>(e) && *final(game) == *old(game),
        },
{
    match decode_move(message) {
        Ok(player_move) => submit_move(
            game,
            player_move.player_number,
            player_move.row,
            player_move.col,
        ),
        Err(_) => Err(MoveError::ProtocolViolation),
    }
}

} // verus!
