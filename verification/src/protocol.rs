//! The line protocol: a request gives a position as text, the reply names
//! the move chosen for the side to move and its score.

use vstd::prelude::*;
use vstd::string::*;
use crate::board::{turn_piece, Coordinate, FullMove, Game, Position};
use crate::memo::{memo_value, obstruction_AI_alpha_beta_hashmap};
use crate::notation::{decoded, string_to_game, ParseError};
use crate::search::FullMoveEvaluation;

verus! {

/// The node budget of the search that answers a request.
pub const REQUEST_BUDGET: usize = 10000;

/// The characters that a request may hold between its digits: brackets,
/// commas and spaces.
pub open spec fn is_separator(c: char) -> bool {
    c == '[' || c == ']' || c == ',' || c == ' '
}

/// The first `n` characters of `text` without the separators.
pub open spec fn stripped_prefix(text: Seq<char>, n: nat) -> Seq<char>
    decreases n,
{
    if n == 0 {
        Seq::empty()
    } else if is_separator(text[n - 1]) {
        stripped_prefix(text, (n - 1) as nat)
    } else {
        stripped_prefix(text, (n - 1) as nat).push(text[n - 1])
    }
}

/// `text` without its separators.
pub open spec fn stripped(text: Seq<char>) -> Seq<char> {
    stripped_prefix(text, text.len())
}

/// The position that a request asks about. Without its separators the
/// request is a turn marker followed by the hundred squares: the text form
/// of the position with the turn marker moved to the front.
pub open spec fn requested(line: Seq<char>) -> Result<Position, ParseError> {
    let text = stripped(line);
    if text.len() == 0 {
        Err(ParseError::WrongLength)
    } else {
        decoded(text.subrange(1, text.len() as int) + text.subrange(0, 1))
    }
}

/// Takes the separators out of a request.
pub fn strip_separators(line: &str) -> (text: String)
    ensures
        text@ == stripped(line@),
{
    let length: usize = line.unicode_len();
    let mut text = String::new();
    let mut n: usize = 0;
    while n < length
        invariant
            n <= length,
            length == line@.len(),
            text@ == stripped_prefix(line@, n as nat),
        decreases length - n,
    {
        let c = line.get_char(n);
        if !(c == '[' || c == ']' || c == ',' || c == ' ') {
            text.append(line.substring_char(n, n + 1));
            assert(line@.subrange(n as int, n + 1) =~= seq![line@[n as int]]);
        }
        n += 1;
    }
    text
}

/// Reads the position that a request asks about.
pub fn parse_request(line: &str) -> (parsed: Result<Game, ParseError>)
    ensures
        match parsed {
            Ok(game) => requested(line@) == Ok::<Position, ParseError>(game@),
            Err(e) => requested(line@) == Err::<Position, ParseError>(e),
        },
{
    let stripped_line = strip_separators(line);
    let text = stripped_line.as_str();
    let length: usize = text.unicode_len();
    if length == 0 {
        return Err(ParseError::WrongLength);
    }
    let mut board_string = String::from_str(text.substring_char(1, length));
    board_string.append(text.substring_char(0, 1));
    string_to_game(board_string)
}

/// The character of a decimal digit.
pub open spec fn digit_char(d: int) -> char {
    if d == 0 {
        '0'
    } else if d == 1 {
        '1'
    } else if d == 2 {
        '2'
    } else if d == 3 {
        '3'
    } else if d == 4 {
        '4'
    } else if d == 5 {
        '5'
    } else if d == 6 {
        '6'
    } else if d == 7 {
        '7'
    } else if d == 8 {
        '8'
    } else {
        '9'
    }
}

/// The decimal digits of `n`, without leading zeros.
pub open spec fn decimal(n: nat) -> Seq<char>
    decreases n,
{
    if n < 10 {
        seq![digit_char(n as int)]
    } else {
        decimal(n / 10).push(digit_char((n % 10) as int))
    }
}

/// The decimal form of `v`, with a minus sign where it is negative.
pub open spec fn signed_decimal(v: int) -> Seq<char> {
    if v < 0 {
        seq!['-'] + decimal((-v) as nat)
    } else {
        decimal(v as nat)
    }
}

/// A square as the reply names it: column first, then row, in brackets.
pub open spec fn square_text(c: Coordinate) -> Seq<char> {
    seq!['('] + decimal(c.x as nat) + seq![','] + decimal(c.y as nat) + seq![')']
}

/// The reply that names the move `m` and its score.
pub open spec fn reply_text(m: FullMove, score: int) -> Seq<char> {
    square_text(m.from) + seq![' '] + square_text(m.to) + seq![' '] + square_text(m.shoot)
        + " My evaluation of this is "@ + signed_decimal(score)
}

/// A decimal digit as text.
fn digit_str(d: u32) -> (text: &'static str)
    requires
        d < 10,
    ensures
        text@ == seq![digit_char(d as int)],
{
    proof {
        reveal_strlit("0");
        reveal_strlit("1");
        reveal_strlit("2");
        reveal_strlit("3");
        reveal_strlit("4");
        reveal_strlit("5");
        reveal_strlit("6");
        reveal_strlit("7");
        reveal_strlit("8");
        reveal_strlit("9");
    }
    let text = if d == 0 {
        "0"
    } else if d == 1 {
        "1"
    } else if d == 2 {
        "2"
    } else if d == 3 {
        "3"
    } else if d == 4 {
        "4"
    } else if d == 5 {
        "5"
    } else if d == 6 {
        "6"
    } else if d == 7 {
        "7"
    } else if d == 8 {
        "8"
    } else {
        "9"
    };
    assert(text@ =~= seq![digit_char(d as int)]);
    text
}

/// Appends the decimal digits of `n` to `out`.
fn append_decimal(out: &mut String, n: u32)
    ensures
        final(out)@ == old(out)@ + decimal(n as nat),
    decreases n,
{
    if n >= 10 {
        append_decimal(out, n / 10);
    }
    out.append(digit_str(n % 10));
    assert(out@ =~= old(out)@ + decimal(n as nat));
}

/// Appends the decimal form of `v` to `out`.
fn append_signed(out: &mut String, v: i32)
    ensures
        final(out)@ == old(out)@ + signed_decimal(v as int),
{
    if v < 0 {
        proof {
            reveal_strlit("-");
        }
        out.append("-");
        let magnitude: u32 = (-(v as i64)) as u32;
        append_decimal(out, magnitude);
        assert(out@ =~= old(out)@ + signed_decimal(v as int));
    } else {
        append_decimal(out, v as u32);
    }
}

/// Appends a square, as the reply names it, to `out`.
fn append_square(out: &mut String, c: Coordinate)
    ensures
        final(out)@ == old(out)@ + square_text(c),
{
    proof {
        reveal_strlit("(");
        reveal_strlit(",");
        reveal_strlit(")");
    }
    out.append("(");
    append_decimal(out, c.x as u32);
    out.append(",");
    append_decimal(out, c.y as u32);
    out.append(")");
    assert(out@ =~= old(out)@ + square_text(c));
}

/// Writes the reply that names a move and its score.
pub fn format_reply(evaluation: FullMoveEvaluation) -> (reply: String)
    ensures
        reply@ == reply_text(evaluation.full_move, evaluation.score as int),
{
    let move_ = evaluation.full_move;
    let mut reply = String::new();
    proof {
        reveal_strlit(" ");
    }
    append_square(&mut reply, move_.from);
    reply.append(" ");
    append_square(&mut reply, move_.to);
    reply.append(" ");
    append_square(&mut reply, move_.shoot);
    reply.append(" My evaluation of this is ");
    append_signed(&mut reply, evaluation.score);
    assert(reply@ =~= reply_text(evaluation.full_move, evaluation.score as int));
    reply
}

/// The move and score with which a request about `pos` is answered.
pub open spec fn answer(pos: Position) -> (FullMove, int) {
    memo_value(Map::empty(), pos, turn_piece(pos.turn), 10000, 4, -100000, 100000, true).0
}

/// Answers a request: reads the position, searches it with the memoized
/// alpha-beta search under `REQUEST_BUDGET`, and writes the reply. A request
/// that is not a position is refused with the reason.
pub fn answer_request(line: &str) -> (reply: Result<String, ParseError>)
    ensures
        match reply {
            Ok(text) => requested(line@) is Ok && text@ == reply_text(
                answer(requested(line@)->Ok_0).0,
                answer(requested(line@)->Ok_0).1,
            ),
            Err(e) => requested(line@) == Err::<Position, ParseError>(e),
        },
{
    match parse_request(line) {
        Ok(game) => {
            let full_move_evaluation = obstruction_AI_alpha_beta_hashmap(game, REQUEST_BUDGET);
            Ok(format_reply(full_move_evaluation))
        },
        Err(e) => Err(e),
    }
}

} // verus!
