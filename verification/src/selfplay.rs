//! One turn of a game that the engine plays against itself.

use vstd::prelude::*;
use crate::board::{turn_piece, turn_to_piece, FullMove, Game, Position};
use crate::evaluate::{evaluation, full_evaluation};
use crate::alpha_beta::lemma_one_ply_needs_a_node_for_each_move;
use crate::memo::{lemma_memo_names_legal_move, obstruction_AI_alpha_beta_hashmap};
use crate::protocol::{answer, REQUEST_BUDGET};
use crate::rules::{
    is_valid_full_move, lemma_one_more_occupied, occupied, play_move, played, valid_full_move,
};
use crate::search::{moves_of, FullMoveEvaluation};
use crate::terminal::{game_over, is_over, over_status, OverStatus};

verus! {

/// What one turn of self-play did: the move chosen with its score, the
/// state reached, the evaluation of that state for the side that moved,
/// and whether the game is over there.
#[derive(Copy, Clone, Debug)]
pub struct TurnReport {
    pub choice: FullMoveEvaluation,
    pub game: Game,
    pub evaluation: i32,
    pub status: OverStatus,
}

/// `report` tells what happens when the move `choice` is played in `pos`.
/// The state reached has one occupied square more, so that a game takes no
/// more turns than the board has empty squares.
pub open spec fn reports(report: TurnReport, pos: Position, choice: (FullMove, int)) -> bool {
    &&& (report.choice.full_move, report.choice.score as int) == choice
    &&& report.game@ == played(pos, choice.0)
    &&& occupied(report.game@) == occupied(pos) + 1
    &&& report.evaluation == evaluation(report.game@, turn_piece(pos.turn))
    &&& report.status == over_status(report.game@)
}

/// Plays one turn: the side to move plays the move that the memoized
/// alpha-beta search chooses under `REQUEST_BUDGET`. Where that search
/// names no legal move nothing is played and the result is `None`: that is
/// so when the game is over, and when the side to move has more moves than
/// the budget has nodes.
pub fn play_turn(game: Game) -> (turn: Option<TurnReport>)
    ensures
        turn is Some <==> !game_over(game@) && moves_of(game@).len() <= 10000,
        match turn {
            Some(report) => valid_full_move(game@, answer(game@).0) && reports(
                report,
                game@,
                answer(game@),
            ),
            None => !valid_full_move(game@, answer(game@).0),
        },
{
    let choice = obstruction_AI_alpha_beta_hashmap(game, REQUEST_BUDGET);
    proof {
        lemma_memo_names_legal_move(
            Map::empty(),
            game@,
            turn_piece(game@.turn),
            10000,
            4,
            -100000,
            100000,
            true,
        );
        lemma_one_ply_needs_a_node_for_each_move(moves_of(game@).len(), 4, 10000);
    }
    if !is_valid_full_move(game, choice.full_move) {
        return None;
    }
    let next = play_move(game, choice.full_move);
    proof {
        lemma_one_more_occupied(game@, choice.full_move);
    }
    let evaluation: i32 = full_evaluation(next, turn_to_piece(game.turn));
    let status = is_over(next);
    Some(TurnReport { choice: choice, game: next, evaluation: evaluation, status: status })
}

} // verus!
