//! Detection of the end of the game, and of its winner.

use vstd::prelude::*;
use crate::board::{turn_piece, FullMove, Game, Piece, Position};
use crate::movegen::{
    find_possible_moves_side, full_moves, is_full_move_of, lemma_full_moves_complete,
    lemma_full_moves_sound,
};
use crate::rules::valid_full_move;

verus! {

/// Whether the game has ended, and who won it (`winner` is true for White).
#[derive(Copy, Clone, PartialEq, Eq, Structural, Debug)]
pub struct OverStatus {
    pub over: bool,
    pub winner: bool,
}

/// `side` has no full move left.
pub open spec fn is_stuck(pos: Position, side: Piece) -> bool {
    full_moves(pos.squares, side).len() == 0
}

/// The game is over as soon as either side has no full move left, whoever
/// is to move.
pub open spec fn game_over(pos: Position) -> bool {
    is_stuck(pos, Piece::White) || is_stuck(pos, Piece::Black)
}

/// White is the winner when Black has no full move left. This also decides
/// the position in which neither side can move: it counts as a win for
/// White. While the game goes on nobody has won.
pub open spec fn white_wins(pos: Position) -> bool {
    is_stuck(pos, Piece::Black)
}

/// The outcome of `pos`.
pub open spec fn over_status(pos: Position) -> OverStatus {
    OverStatus { over: game_over(pos), winner: white_wins(pos) }
}

/// Tells whether the game is over and, if so, who won. Both sides are
/// examined, not only the side to move.
pub fn is_over(game: Game) -> (status: OverStatus)
    ensures
        status == over_status(game@),
        status.over == (full_moves(game@.squares, Piece::White).len() == 0 || full_moves(
            game@.squares,
            Piece::Black,
        ).len() == 0),
{
    let mut over = OverStatus { over: false, winner: false };
    let white_moves = find_possible_moves_side(game, Piece::White);
    if white_moves.len() == 0 {
        over.over = true;
        over.winner = false;
    }
    let black_moves = find_possible_moves_side(game, Piece::Black);
    if black_moves.len() == 0 {
        over.over = true;
        over.winner = true;
    }
    over
}

/// The full moves generated for the side to move are exactly the legal ones.
pub proof fn lemma_generated_iff_legal(pos: Position, m: FullMove)
    ensures
        full_moves(pos.squares, turn_piece(pos.turn)).contains(m) <==> valid_full_move(pos, m),
{
    let side = turn_piece(pos.turn);
    let all = full_moves(pos.squares, side);
    if all.contains(m) {
        let i = choose|i: int| 0 <= i < all.len() && all[i] == m;
        lemma_full_moves_sound(pos.squares, side, i);
    }
    if valid_full_move(pos, m) {
        assert(is_full_move_of(pos.squares, side, m));
        lemma_full_moves_complete(pos.squares, side, m);
    }
}

/// The side to move is stuck exactly when no full move is legal for it.
pub proof fn lemma_stuck_iff_no_legal_move(pos: Position)
    ensures
        is_stuck(pos, turn_piece(pos.turn)) <==> forall|m: FullMove| !valid_full_move(pos, m),
{
    let side = turn_piece(pos.turn);
    let all = full_moves(pos.squares, side);
    if all.len() > 0 {
        lemma_generated_iff_legal(pos, all[0]);
        assert(valid_full_move(pos, all[0]));
    }
    if all.len() == 0 {
        assert forall|m: FullMove| !valid_full_move(pos, m) by {
            lemma_generated_iff_legal(pos, m);
        }
    }
}

} // verus!
