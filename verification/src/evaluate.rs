//! Positional evaluation: area control from the two distance fields, and
//! the mobility of the two sides.

use vstd::prelude::*;
use crate::board::{opposite, opposite_piece, turn_piece, turn_to_piece, Game, Piece, Position};
use crate::flood::{distances, hop_distance};
use crate::bounds::{lemma_evaluation_range, lemma_mobility_limit};
use crate::movegen::{find_possible_moves_side, full_moves};

verus! {

/// What one square adds to the area control of a side that reaches it in
/// `me` hops while the other side reaches it in `opp` hops (-1: never).
/// A square that neither side reaches adds nothing; one that only this side
/// reaches adds 10; one that only the other side reaches takes 10 away; one
/// that both reach adds the other side's distance less this side's.
pub open spec fn cell_score(me: int, opp: int) -> int {
    if me == -1 && opp == -1 {
        0
    } else if opp == -1 {
        10
    } else if me == -1 {
        -10
    } else {
        opp - me
    }
}

/// Area control of `piece` summed over the first `n` squares.
pub open spec fn area_control_before(board: Seq<Piece>, piece: Piece, n: nat) -> int
    decreases n,
{
    if n == 0 {
        0
    } else {
        area_control_before(board, piece, (n - 1) as nat) + cell_score(
            hop_distance(board, piece, n - 1),
            hop_distance(board, opposite(piece), n - 1),
        )
    }
}

/// Area control of `piece`: the sum of `cell_score` over the board.
pub open spec fn area_control(board: Seq<Piece>, piece: Piece) -> int {
    area_control_before(board, piece, 100)
}

/// The score of `pos` in the eyes of `piece`: the mobility of the side to
/// move less that of the other side, plus the area control of the side to
/// move less that of the other side; negated when `piece` is not the side
/// to move.
pub open spec fn evaluation(pos: Position, piece: Piece) -> int {
    let mover = turn_piece(pos.turn);
    let other = opposite(mover);
    let mobility = full_moves(pos.squares, mover).len() - full_moves(pos.squares, other).len();
    let area = area_control(pos.squares, mover) - area_control(pos.squares, other);
    if mover == piece {
        mobility + area
    } else {
        -(mobility + area)
    }
}

/// Scores the squares that `piece` reaches sooner than the other side
/// against those that the other side reaches sooner.
pub fn area_control_evaluation(game: Game, piece: Piece) -> (score: i32)
    ensures
        score == area_control(game@.squares, piece),
        -10000 <= score <= 10000,
{
    let ghost board = game@.squares;
    let distances_me = distances(game, piece);
    let distances_opponent = distances(game, opposite_piece(piece));
    let mut score: i32 = 0;
    let mut n: usize = 0;
    while n < 100
        invariant
            n <= 100,
            forall|s: int| 0 <= s < 100 ==> -1 <= #[trigger] distances_me@[s] < 100,
            forall|s: int| 0 <= s < 100 ==> -1 <= #[trigger] distances_opponent@[s] < 100,
            forall|s: int|
                0 <= s < 100 ==> #[trigger] distances_me@[s] == hop_distance(board, piece, s),
            forall|s: int|
                0 <= s < 100 ==> #[trigger] distances_opponent@[s] == hop_distance(
                    board,
                    opposite(piece),
                    s,
                ),
            score == area_control_before(board, piece, n as nat),
            -100 * n <= score <= 100 * n,
        decreases 100 - n,
    {
        let me: i8 = distances_me[n];
        let opponent: i8 = distances_opponent[n];
        if me == -1 && opponent == -1 {
        } else if opponent == -1 {
            score += 10;
        } else if me == -1 {
            score -= 10;
        } else {
            score += (opponent - me) as i32;
        }
        n += 1;
    }
    score
}

/// Evaluates `game` for `piece`. Positions in which the game is over are
/// scored like any other. The score lies strictly between the scores that
/// the searches give to lost and to won games.
pub fn full_evaluation(game: Game, piece: Piece) -> (score: i32)
    ensures
        score == evaluation(game@, piece),
        -100000 < score < 100000,
{
    let turn_piece: Piece = turn_to_piece(game.turn);
    let other: Piece = opposite_piece(turn_piece);
    proof {
        lemma_mobility_limit(game@.squares, turn_piece);
        lemma_mobility_limit(game@.squares, other);
        lemma_evaluation_range(game@, piece);
    }
    let own_moves: i32 = find_possible_moves_side(game, turn_piece).len() as i32;
    let other_moves: i32 = find_possible_moves_side(game, other).len() as i32;
    let possible_evaluation: i32 = own_moves - other_moves;
    let area_evaluation: i32 = area_control_evaluation(game, turn_piece) - area_control_evaluation(
        game,
        other,
    );
    let sum_evaluation: i32 = possible_evaluation + area_evaluation;
    if turn_piece == piece {
        sum_evaluation
    } else {
        -sum_evaluation
    }
}

/// The evaluation is antisymmetric between the two sides: what White
/// gains, Black loses.
pub proof fn lemma_evaluation_antisymmetric(pos: Position)
    ensures
        evaluation(pos, Piece::White) == -evaluation(pos, Piece::Black),
{
}

} // verus!
