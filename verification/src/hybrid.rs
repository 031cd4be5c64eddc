//! The hybrid engine: two searches of one position, and the move of the
//! one that promises more.

use vstd::prelude::*;
use crate::alpha_beta::{alpha_beta, alpha_beta_value};
use crate::best_first::{best_first_value, monte_carlo};
use crate::board::{turn_piece, turn_to_piece, FullMove, Game, Piece, Position};
use crate::search::{SEARCH_DEPTH, WIN_SCORE};

verus! {

/// The move of the hybrid engine in `pos`: that of the alpha-beta search
/// under the whole budget where its score is greater than the score of the
/// best-first search under a tenth of the budget, and else that of the
/// best-first search. The two scores are taken as the searches report them.
pub open spec fn hybrid_choice(pos: Position, budget: nat) -> FullMove {
    let piece = turn_piece(pos.turn);
    let deep = alpha_beta_value(pos, piece, budget, 4, -100000, 100000, true);
    let wide = best_first_value(pos, piece, budget / 10, -100000, 100000, true);
    if deep.1 > wide.1 {
        deep.0
    } else {
        wide.0
    }
}

/// Chooses a move for the side to move by running the alpha-beta search
/// and the best-first search, and keeping the move with the higher score.
#[allow(non_snake_case)]
pub fn obstruction_AI_hybrid(game: Game, max_count: usize) -> (best: FullMove)
    ensures
        best == hybrid_choice(game@, max_count as nat),
{
    let piece: Piece = turn_to_piece(game.turn);
    let alpha_beta_full_move_evaluation = alpha_beta(
        max_count,
        game,
        piece,
        SEARCH_DEPTH,
        -WIN_SCORE,
        WIN_SCORE,
        true,
    );
    let monte_carlo_full_move_evaluation = monte_carlo(
        game,
        piece,
        max_count / 10,
        -WIN_SCORE,
        WIN_SCORE,
        true,
    );
    if alpha_beta_full_move_evaluation.score > monte_carlo_full_move_evaluation.score {
        alpha_beta_full_move_evaluation.full_move
    } else {
        monte_carlo_full_move_evaluation.full_move
    }
}

} // verus!
