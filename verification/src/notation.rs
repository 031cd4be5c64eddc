//! The text form of a game state: a hundred digits for the squares, row by
//! row, and one character for the side to move.

use vstd::prelude::*;
use vstd::string::*;
use crate::board::{empty_game, Game, Piece, Position};

verus! {

/// Why a text is not a game state.
#[derive(Copy, Clone, PartialEq, Eq, Structural, Debug)]
pub enum ParseError {
    /// The text does not have a hundred squares and a turn marker.
    WrongLength,
    /// A square is not one of the digits 0 to 3.
    InvalidCell,
}

/// The digit of a square: 0 empty, 1 White, 2 Black, 3 arrow.
pub open spec fn cell_char(piece: Piece) -> char {
    match piece {
        Piece::Nothing => '0',
        Piece::White => '1',
        Piece::Black => '2',
        Piece::Arrow => '3',
    }
}

/// The marker of the side to move: `0` for White, `1` for Black.
pub open spec fn turn_char(turn: bool) -> char {
    if turn {
        '0'
    } else {
        '1'
    }
}

/// The text form of a position: its hundred squares in row-major order,
/// then the turn marker.
pub open spec fn encoding(pos: Position) -> Seq<char> {
    Seq::new(100, |i: int| cell_char(pos.squares[i])).push(turn_char(pos.turn))
}

/// What a digit says of a square, if it is one of the four digits.
pub open spec fn cell_of(c: char) -> Option<Piece> {
    if c == '0' {
        Some(Piece::Nothing)
    } else if c == '1' {
        Some(Piece::White)
    } else if c == '2' {
        Some(Piece::Black)
    } else if c == '3' {
        Some(Piece::Arrow)
    } else {
        None
    }
}

/// The position that a text stands for. The text must have 101 characters,
/// the first hundred of them digits from 0 to 3; the last one gives the move
/// to White if it is `0` and to Black if it is anything else.
pub open spec fn decoded(text: Seq<char>) -> Result<Position, ParseError> {
    if text.len() != 101 {
        Err(ParseError::WrongLength)
    } else if exists|i: int| 0 <= i < 100 && cell_of(#[trigger] text[i]) is None {
        Err(ParseError::InvalidCell)
    } else {
        Ok(
            Position {
                squares: Seq::new(100, |i: int| cell_of(text[i])->0),
                turn: text[100] == '0',
            },
        )
    }
}

/// The digit of a square, as text.
pub fn piece_symbol(piece: Piece) -> (symbol: &'static str)
    ensures
        symbol@ == seq![cell_char(piece)],
{
    proof {
        reveal_strlit("0");
        reveal_strlit("1");
        reveal_strlit("2");
        reveal_strlit("3");
    }
    let symbol = match piece {
        Piece::Nothing => "0",
        Piece::White => "1",
        Piece::Black => "2",
        Piece::Arrow => "3",
    };
    assert(symbol@ =~= seq![cell_char(piece)]);
    symbol
}

/// The square content that a digit stands for.
pub fn symbol_piece(c: char) -> (piece: Option<Piece>)
    ensures
        piece == cell_of(c),
{
    if c == '0' {
        Some(Piece::Nothing)
    } else if c == '1' {
        Some(Piece::White)
    } else if c == '2' {
        Some(Piece::Black)
    } else if c == '3' {
        Some(Piece::Arrow)
    } else {
        None
    }
}

/// Writes a game state as text.
pub fn game_to_string(game: Game) -> (text: String)
    ensures
        text@ == encoding(game@),
{
    let mut output_game = String::new();
    let mut n: usize = 0;
    while n < 100
        invariant
            n <= 100,
            output_game@ == Seq::new(n as nat, |i: int| cell_char(game@.squares[i])),
        decreases 100 - n,
    {
        output_game.append(piece_symbol(game.board[n]));
        n += 1;
        assert(output_game@ =~= Seq::new(n as nat, |i: int| cell_char(game@.squares[i])));
    }
    proof {
        reveal_strlit("0");
        reveal_strlit("1");
    }
    if game.turn {
        output_game.append("0");
    } else {
        output_game.append("1");
    }
    assert(output_game@ =~= encoding(game@));
    output_game
}

/// Reads a game state from its text form.
pub fn string_to_game(input_game: String) -> (parsed: Result<Game, ParseError>)
    ensures
        match parsed {
            Ok(game) => decoded(input_game@) == Ok::<Position, ParseError>(game@),
            Err(e) => decoded(input_game@) == Err::<Position, ParseError>(e),
        },
{
    let text = input_game.as_str();
    if text.unicode_len() != 101 {
        return Err(ParseError::WrongLength);
    }
    let mut game = empty_game();
    let mut n: usize = 0;
    while n < 100
        invariant
            n <= 100,
            text@ == input_game@,
            text@.len() == 101,
            forall|i: int| 0 <= i < n ==> cell_of(#[trigger] text@[i]) == Some(game@.squares[i]),
        decreases 100 - n,
    {
        match symbol_piece(text.get_char(n)) {
            Some(piece) => {
                game.board[n] = piece;
            },
            None => {
                return Err(ParseError::InvalidCell);
            },
        }
        n += 1;
    }
    game.turn = text.get_char(100) == '0';
    proof {
        let pos = decoded(input_game@)->Ok_0;
        assert(pos.squares =~= game@.squares);
    }
    Ok(game)
}

/// Tells whether a turn marker gives the move to White: the text `0` does,
/// any other text does not.
pub fn turn_string_to_bool(turn: &str) -> (white: bool)
    ensures
        white == (turn@ == seq!['0']),
{
    let white = turn.unicode_len() == 1 && turn.get_char(0) == '0';
    proof {
        if white {
            assert(turn@ =~= seq!['0']);
        }
    }
    white
}

/// Reading what was written gives the position back.
pub proof fn lemma_decoded_encoding(pos: Position)
    requires
        pos.wf(),
    ensures
        decoded(encoding(pos)) == Ok::<Position, ParseError>(pos),
{
    let text = encoding(pos);
    assert forall|i: int| 0 <= i < 100 implies cell_of(#[trigger] text[i]) == Some(
        pos.squares[i],
    ) by {}
    let back = decoded(text)->Ok_0;
    assert(back.squares =~= pos.squares);
    assert(back =~= pos);
}

} // verus!
