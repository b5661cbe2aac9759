//! The text messages that server and clients exchange.
//!
//! The server sends `"<player number> <move id>;<payload>"`; a client
//! submits a move as `"<player number>,<row>,<col>"`.

use vstd::prelude::*;
use crate::board::{Board, Cell, BOARD_DIMENSION};
use crate::text::{
    after_first_word, decimal, first_word, is_digit, is_whitespace, is_word, leading_run,
    lemma_decimal_reads_back, lemma_first_index, lemma_first_word_has_no_space, lemma_leading_run,
    lemma_word_is_inside, parse_usize, push_decimal, push_str, read_usize, split_first,
    split_head, split_tail, split_word, to_chars, to_text, trim, trimmed,
};

verus! {

/// A message does not have the shape that the protocol asks for.
#[derive(Clone, Copy, Debug, PartialEq, Eq, Structural)]
pub struct ProtocolViolation;

/// A message of the server, taken apart.
#[derive(Debug, PartialEq, Eq)]
pub struct ServerMessage {
    pub player_number: usize,
    pub move_id: String,
    pub msg: String,
}

/// A guess: the player who makes it and the cell it aims at.
#[derive(Clone, Copy, Debug, PartialEq, Eq, Structural)]
pub struct Move {
    pub player_number: usize,
    pub row: usize,
    pub col: usize,
}

/// The text of a server message: the player number in decimal digits, a
/// blank, the move id, a semicolon, the payload.
pub open spec fn server_message_text(player_number: nat, move_id: Seq<char>, payload: Seq<char>) -> Seq<
    char,
> {
    decimal(player_number) + seq![' '] + move_id + seq![';'] + payload
}

/// What a server message says: the player number, the move id and the
/// payload.
///
/// The payload is all that follows the first semicolon. Of what stands
/// before it, the first word is the player number and the second the move id;
/// further words are ignored. A text without a semicolon, without a second
/// word, or whose first word is no number that fits says nothing.
pub open spec fn server_message(s: Seq<char>) -> Option<(usize, Seq<char>, Seq<char>)> {
    let key = split_head(s, ';');
    let move_id = first_word(after_first_word(key));
    match (split_tail(s, ';'), parse_usize(first_word(key))) {
        (Some(payload), Some(player_number)) => if move_id.len() > 0 {
            Some((player_number, move_id, payload))
        } else {
            None
        },
        _ => None,
    }
}

/// Takes a server message apart.
pub fn process_message(message: String) -> (decoded: Result<ServerMessage, ProtocolViolation>)
    ensures
        match decoded {
            Ok(m) => server_message(message@) == Some((m.player_number, m.move_id@, m.msg@)),
            Err(_) => server_message(message@) is None,
        },
{
    let chars = to_chars(message.as_str());
    let (key_message, value_message) = split_first(&chars, ';');
    let (number, rest) = split_word(&key_message);
    let (move_id, _) = split_word(&rest);
    match (value_message, read_usize(&number)) {
        (Some(payload), Some(player_number)) => {
            if move_id.len() > 0 {
                Ok(
                    ServerMessage {
                        player_number,
                        move_id: to_text(&move_id),
                        msg: to_text(&payload),
                    },
                )
            } else {
                Err(ProtocolViolation)
            }
        },
        _ => Err(ProtocolViolation),
    }
}

/// Writes a server message.
pub fn encode_server_message(player_number: usize, move_id: &str, payload: &str) -> (text: String)
    ensures
        text@ == server_message_text(player_number as nat, move_id@, payload@),
{
    let mut out: Vec<char> = Vec::new();
    push_decimal(&mut out, player_number);
    out.push(' ');
    push_str(&mut out, move_id);
    out.push(';');
    push_str(&mut out, payload);
    proof {
        assert(out@ =~= server_message_text(player_number as nat, move_id@, payload@));
    }
    to_text(&out)
}

/// A move id that a server message can carry: a word without a semicolon.
pub open spec fn is_move_id(move_id: Seq<char>) -> bool {
    &&& move_id.len() > 0
    &&& forall|i: int|
        0 <= i < move_id.len() ==> !is_whitespace(#[trigger] move_id[i]) && move_id[i] != ';'
}

/// A server message says what was written into it: decoding the text of
/// a player number, a move id and a payload gives back these three.
pub proof fn lemma_server_message_round_trip(
    player_number: usize,
    move_id: Seq<char>,
    payload: Seq<char>,
)
    requires
        is_move_id(move_id),
    ensures
        server_message(server_message_text(player_number as nat, move_id, payload)) == Some(
            (player_number, move_id, payload),
        ),
{
    let digits = decimal(player_number as nat);
    let s = server_message_text(player_number as nat, move_id, payload);
    let cut = (digits.len() + 1 + move_id.len()) as int;
    lemma_decimal_reads_back(player_number as nat);
    assert forall|j: int| 0 <= j < cut implies s[j] != ';' by {
        if j < digits.len() {
            assert(is_digit(digits[j]));
        } else if j > digits.len() {
            assert(s[j] == move_id[j - digits.len() - 1]);
        }
    }
    lemma_first_index(s, ';', cut);
    let key = split_head(s, ';');
    assert(key =~= digits + seq![' '] + move_id);
    assert(split_tail(s, ';') == Some(payload)) by {
        assert(s.skip(cut + 1) =~= payload);
    }
    assert(is_digit(digits[0]));
    lemma_leading_run(key, true, 0);
    assert(key.skip(0) =~= key);
    assert forall|j: int| 0 <= j < digits.len() implies !is_whitespace(#[trigger] key[j]) by {
        assert(is_digit(digits[j]));
    }
    lemma_leading_run(key, false, digits.len());
    assert(first_word(key) =~= digits);
    let after = after_first_word(key);
    assert(after =~= seq![' '] + move_id);
    assert(after[1] == move_id[0]);
    lemma_leading_run(after, true, 1);
    assert(after.skip(1) =~= move_id);
    lemma_leading_run(move_id, false, move_id.len());
    assert(first_word(after) =~= move_id);
}

/// The move id of a message that says something is a move id: it can be
/// written into a message again.
pub proof fn lemma_decoded_move_id(s: Seq<char>)
    requires
        server_message(s) is Some,
    ensures
        ({
            let (_, move_id, _) = server_message(s).unwrap();
            is_move_id(move_id)
        }),
{
    let key = split_head(s, ';');
    let after = after_first_word(key);
    let move_id = first_word(after);
    s.index_of_first_ensures(';');
    lemma_word_is_inside(key);
    lemma_word_is_inside(after);
    lemma_first_word_has_no_space(after);
    assert forall|i: int| 0 <= i < move_id.len() implies move_id[i] != ';' by {
        let spaces = leading_run(after, true) as int;
        let before = (key.len() - after.len()) as int;
        assert(move_id[i] == after[spaces + i]);
        assert(after[spaces + i] == key[before + spaces + i]);
        assert(key[before + spaces + i] == s[before + spaces + i]);
    }
}

/// Decoding a message, writing down what it says and decoding that text
/// gives what the message said.
pub proof fn lemma_server_message_decode_encode(s: Seq<char>)
    requires
        server_message(s) is Some,
    ensures
        ({
            let (player_number, move_id, payload) = server_message(s).unwrap();
            server_message(server_message_text(player_number as nat, move_id, payload))
                == server_message(s)
        }),
{
    let (player_number, move_id, payload) = server_message(s).unwrap();
    lemma_decoded_move_id(s);
    lemma_server_message_round_trip(player_number, move_id, payload);
}

/// How one cell is drawn.
pub open spec fn cell_text(cell: Cell) -> Seq<char> {
    match cell {
        Cell::Empty => "   |"@,
        Cell::Ship => " * |"@,
    }
}

/// The first `count` cells of a row, drawn one after the other.
pub open spec fn cells_text(row: Seq<Cell>, count: nat) -> Seq<char>
    decreases count,
{
    if count == 0 {
        Seq::empty()
    } else {
        cells_text(row, (count - 1) as nat) + cell_text(row[count - 1])
    }
}

/// How one row is drawn: an opening bar on a line of its own, the ten cells,
/// a closing bar and a blank line.
pub open spec fn row_text(row: Seq<Cell>) -> Seq<char> {
    "\n|"@ + cells_text(row, 10) + "  |"@ + "\n\n"@
}

/// The first `count` rows of a grid, drawn one after the other.
pub open spec fn rows_text(grid: Seq<Seq<Cell>>, count: nat) -> Seq<char>
    decreases count,
{
    if count == 0 {
        Seq::empty()
    } else {
        rows_text(grid, (count - 1) as nat) + row_text(grid[count - 1])
    }
}

/// The payload that shows a player the board: a heading, the ten rows, the
/// number of ships and the number of open cells.
pub open spec fn board_payload(
    grid: Seq<Seq<Cell>>,
    ships: nat,
    open_cells: nat,
    player_number: nat,
) -> Seq<char> {
    "Initial battleship board for Player "@ + decimal(player_number) + "\n"@ + rows_text(
        grid,
        10,
    ) + "Number of ships: "@ + decimal(ships) + "\n"@ + "Open spaces left: "@ + decimal(
        open_cells,
    ) + "\n-----------------------------------\n\n"@
}

/// Writes the message that shows a player the board at the start of a match:
/// a server message with the move id `init`.
pub fn send_board(board: &Board, player_number: usize) -> (text: String)
    requires
        board.wf(),
    ensures
        text@ == server_message_text(
            player_number as nat,
            "init"@,
            board_payload(board@, board.fleet().len(), board.open_cells(), player_number as nat),
        ),
{
    let mut value_string: Vec<char> = Vec::new();
    push_str(&mut value_string, "Initial battleship board for Player ");
    push_decimal(&mut value_string, player_number);
    push_str(&mut value_string, "\n");
    let ghost heading = value_string@;
    let mut row: usize = 0;
    while row < BOARD_DIMENSION
        invariant
            board.wf(),
            row <= 10,
            value_string@ == heading + rows_text(board@, row as nat),
        decreases 10 - row,
    {
        let ghost before_row = value_string@;
        push_str(&mut value_string, "\n|");
        let mut col: usize = 0;
        while col < BOARD_DIMENSION
            invariant
                board.wf(),
                row < 10,
                col <= 10,
                value_string@ == before_row + "\n|"@ + cells_text(board@[row as int], col as nat),
            decreases 10 - col,
        {
            if board.is_ship(row, col) {
                push_str(&mut value_string, " * |");
            } else {
                push_str(&mut value_string, "   |");
            }
            proof {
                assert(value_string@ =~= before_row + "\n|"@ + cells_text(
                    board@[row as int],
                    (col + 1) as nat,
                ));
            }
            col += 1;
        }
        push_str(&mut value_string, "  |");
        push_str(&mut value_string, "\n\n");
        proof {
            assert(value_string@ =~= heading + rows_text(board@, (row + 1) as nat));
        }
        row += 1;
    }
    push_str(&mut value_string, "Number of ships: ");
    push_decimal(&mut value_string, board.num_ships());
    push_str(&mut value_string, "\n");
    push_str(&mut value_string, "Open spaces left: ");
    push_decimal(&mut value_string, board.open_space_left());
    push_str(&mut value_string, "\n-----------------------------------\n\n");
    let payload = to_text(&value_string);
    proof {
        assert(payload@ =~= board_payload(
            board@,
            board.fleet().len(),
            board.open_cells(),
            player_number as nat,
        ));
    }
    encode_server_message(player_number, "init", payload.as_str())
}

/// The server's answer to a line of a player: `turn` to a line whose first
/// word is `turn`, `Bruh` to the line `Bruh`, a note to a line without a
/// word, and else `turn` with the number of the player who moved.
pub open spec fn client_reply(message: Seq<char>, player_number: nat) -> Seq<char> {
    if first_word(message).len() == 0 {
        "Empty message"@
    } else if first_word(message) == "turn"@ {
        "turn"@
    } else if trimmed(message) == "Bruh"@ {
        "Bruh"@
    } else {
        "turn Got move from "@ + decimal(player_number)
    }
}

/// Answers a line of a player.
pub fn process_client_message(message: String, player_number: usize) -> (reply: String)
    ensures
        reply@ == client_reply(message@, player_number as nat),
{
    let chars = to_chars(message.as_str());
    let (first_word, _) = split_word(&chars);
    let message = trim(&chars);
    if first_word.len() == 0 {
        return "Empty message".to_string();
    } else if is_word(&first_word, "turn") {
        return "turn".to_string();
    } else if is_word(&message, "Bruh") {
        return "Bruh".to_string();
    } else {
        let mut reply: Vec<char> = Vec::new();
        push_str(&mut reply, "turn Got move from ");
        push_decimal(&mut reply, player_number);
        return to_text(&reply);
    }
}

/// The text of a move: player number, row and column in decimal digits,
/// with commas between them.
pub open spec fn move_text(player_number: nat, row: nat, col: nat) -> Seq<char> {
    decimal(player_number) + seq![','] + decimal(row) + seq![','] + decimal(col)
}

/// The move that a text submits: its first three fields, cut at commas, are
/// the player number, the row and the column; further fields are ignored. A
/// text with fewer than three fields, or with one of the three that is no
/// number that fits, submits nothing.
pub open spec fn submitted_move(s: Seq<char>) -> Option<Move> {
    match split_tail(s, ',') {
        Some(after_player) => match split_tail(after_player, ',') {
            Some(after_row) => match (
                parse_usize(split_head(s, ',')),
                parse_usize(split_head(after_player, ',')),
                parse_usize(split_head(after_row, ',')),
            ) {
                (Some(player_number), Some(row), Some(col)) => Some(
                    Move { player_number, row, col },
                ),
                _ => None,
            },
            None => None,
        },
        None => None,
    }
}

/// Reads the move that a player submits.
pub fn decode_move(message: &str) -> (decoded: Result<Move, ProtocolViolation>)
    ensures
        match decoded {
            Ok(m) => submitted_move(message@) == Some(m),
            Err(_) => submitted_move(message@) is None,
        },
{
    let chars = to_chars(message);
    let (player_field, after_player) = split_first(&chars, ',');
    match after_player {
        Some(after_player) => {
            let (row_field, after_row) = split_first(&after_player, ',');
            match after_row {
                Some(after_row) => {
                    let (col_field, _) = split_first(&after_row, ',');
                    match (
                        read_usize(&player_field),
                        read_usize(&row_field),
                        read_usize(&col_field),
                    ) {
                        (Some(player_number), Some(row), Some(col)) => Ok(
                            Move { player_number, row, col },
                        ),
                        _ => Err(ProtocolViolation),
                    }
                },
                None => Err(ProtocolViolation),
            }
        },
        None => Err(ProtocolViolation),
    }
}

/// Writes the move that a player submits.
pub fn encode_move(player_number: usize, row: usize, col: usize) -> (text: String)
    ensures
        text@ == move_text(player_number as nat, row as nat, col as nat),
{
    let mut out: Vec<char> = Vec::new();
    push_decimal(&mut out, player_number);
    out.push(',');
    push_decimal(&mut out, row);
    out.push(',');
    push_decimal(&mut out, col);
    proof {
        assert(out@ =~= move_text(player_number as nat, row as nat, col as nat));
    }
    to_text(&out)
}

/// Why a line typed by a player names no cell.
#[derive(Clone, Copy, Debug, PartialEq, Eq, Structural)]
pub enum InputError {
    /// The line does not hold exactly two fields.
    FieldCount,
    /// The first field is no number.
    Row,
    /// The second field is no number.
    Column,
    /// Row or column lies off the board.
    OutOfRange,
}

/// The cell that a line `i,j` typed by a player names: two fields, each a
/// number below ten once the white space around it is gone.
pub open spec fn player_input(line: Seq<char>) -> Result<(usize, usize), InputError> {
    match split_tail(line, ',') {
        Some(second) => if split_tail(second, ',') is Some {
            Err(InputError::FieldCount)
        } else {
            match parse_usize(trimmed(split_head(line, ','))) {
                Some(row) => match parse_usize(trimmed(second)) {
                    Some(col) => if row >= 10 || col >= 10 {
                        Err(InputError::OutOfRange)
                    } else {
                        Ok((row, col))
                    },
                    None => Err(InputError::Column),
                },
                None => Err(InputError::Row),
            }
        },
        None => Err(InputError::FieldCount),
    }
}

/// Reads the cell that a player typed.
pub fn parse_player_input(line: &str) -> (shot: Result<(usize, usize), InputError>)
    ensures
        shot == player_input(line@),
{
    let chars = to_chars(line);
    let (first, second) = split_first(&chars, ',');
    match second {
        Some(second) => {
            let (_, third) = split_first(&second, ',');
            if third.is_some() {
                return Err(InputError::FieldCount);
            }
            match read_usize(&trim(&first)) {
                Some(row) => match read_usize(&trim(&second)) {
                    Some(col) => {
                        if row >= BOARD_DIMENSION || col >= BOARD_DIMENSION {
                            Err(InputError::OutOfRange)
                        } else {
                            Ok((row, col))
                        }
                    },
                    None => Err(InputError::Column),
                },
                None => Err(InputError::Row),
            }
        },
        None => Err(InputError::FieldCount),
    }
}

/// What a client asks of its player after a message of the server.
#[derive(Clone, Copy, Debug, PartialEq, Eq, Structural)]
pub enum Prompt {
    /// A cell to fire at, to be submitted under this player number.
    Shot { player_number: usize },
    /// A line of free text.
    Text,
}

/// What a message of the server asks for, once the white space around it is
/// gone: a shot after `init` and after `turn`, free text after any other
/// move id.
pub open spec fn prompt_after(message: Seq<char>) -> Option<Prompt> {
    match server_message(trimmed(message)) {
        Some((player_number, move_id, _)) => Some(
            if move_id == "init"@ || move_id == "turn"@ {
                Prompt::Shot { player_number }
            } else {
                Prompt::Text
            },
        ),
        None => None,
    }
}

/// Decides what the client asks of its player after a message of the
/// server.
pub fn reply_to_server_message(message: String) -> (prompt: Result<Prompt, ProtocolViolation>)
    ensures
        match prompt {
            Ok(p) => prompt_after(message@) == Some(p),
            Err(_) => prompt_after(message@) is None,
        },
{
    let chars = to_chars(message.as_str());
    let message = to_text(&trim(&chars));
    match process_message(message) {
        Ok(msg) => {
            let move_id = to_chars(msg.move_id.as_str());
            if is_word(&move_id, "init") || is_word(&move_id, "turn") {
                Ok(Prompt::Shot { player_number: msg.player_number })
            } else {
                Ok(Prompt::Text)
            }
        },
        Err(e) => Err(e),
    }
}

/// A submitted move says what was written into it: decoding the text of a
/// player number, a row and a column gives back the move.
pub proof fn lemma_move_round_trip(player_number: usize, row: usize, col: usize)
    ensures
        submitted_move(move_text(player_number as nat, row as nat, col as nat)) == Some(
            Move { player_number, row, col },
        ),
{
    let player_digits = decimal(player_number as nat);
    let row_digits = decimal(row as nat);
    let col_digits = decimal(col as nat);
    let s = move_text(player_number as nat, row as nat, col as nat);
    lemma_decimal_reads_back(player_number as nat);
    lemma_decimal_reads_back(row as nat);
    lemma_decimal_reads_back(col as nat);
    assert forall|j: int| 0 <= j < player_digits.len() implies s[j] != ',' by {
        assert(is_digit(player_digits[j]));
    }
    lemma_first_index(s, ',', player_digits.len() as int);
    assert(split_head(s, ',') =~= player_digits);
    let after_player = s.skip(player_digits.len() as int + 1);
    assert(after_player =~= row_digits + seq![','] + col_digits);
    assert forall|j: int| 0 <= j < row_digits.len() implies after_player[j] != ',' by {
        assert(is_digit(row_digits[j]));
    }
    lemma_first_index(after_player, ',', row_digits.len() as int);
    assert(split_head(after_player, ',') =~= row_digits);
    let after_row = after_player.skip(row_digits.len() as int + 1);
    assert(after_row =~= col_digits);
    col_digits.index_of_first_ensures(',');
    if col_digits.contains(',') {
        let j = choose|j: int| 0 <= j < col_digits.len() && col_digits[j] == ',';
        assert(is_digit(col_digits[j]));
    }
}

} // verus!
