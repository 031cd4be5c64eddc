//! One-ply move choice: by the mover's own mobility, or by the mobility
//! left to the other side.

use vstd::prelude::*;
use crate::board::{
    opposite, opposite_piece, turn_piece, turn_to_piece, FullMove, Game, Piece, Position,
};
use crate::bounds::lemma_mobility_limit;
use crate::movegen::{find_possible_moves_side, full_moves, lemma_full_moves_sound};
use crate::rules::{play_move, played};
use crate::search::{is_first_greatest, is_first_least, moves_of};

verus! {

/// For each move of `pos`, the number of full moves that `side` has in the
/// position reached by it.
pub open spec fn mobility_after(pos: Position, side: Piece) -> Seq<int> {
    Seq::new(
        moves_of(pos).len(),
        |i: int| full_moves(played(pos, moves_of(pos)[i]).squares, side).len() as int,
    )
}

/// Chooses the move after which the side that made it has the most full
/// moves; among equals, the first generated. The side to move must have a
/// move.
#[allow(non_snake_case)]
pub fn basic_AI(game: Game) -> (best: FullMove)
    requires
        moves_of(game@).len() > 0,
    ensures
        exists|j: int|
            is_first_greatest(mobility_after(game@, turn_piece(game@.turn)), j) && best == moves_of(
                game@,
            )[j],
{
    let piece: Piece = turn_to_piece(game.turn);
    let possible_moves = find_possible_moves_side(game, piece);
    let ghost values = mobility_after(game@, piece);
    let mut best_move: FullMove = possible_moves[0];
    let mut best_score: usize = 0;
    let ghost mut best_index: int = 0;
    let mut i: usize = 0;
    while i < possible_moves.len()
        invariant
            possible_moves@ == moves_of(game@),
            piece == turn_piece(game@.turn),
            values == mobility_after(game@, piece),
            i <= possible_moves.len(),
            possible_moves.len() > 0,
            0 <= best_index < possible_moves.len(),
            best_move == possible_moves@[best_index],
            i == 0 ==> best_index == 0 && best_score == 0,
            i > 0 ==> best_index < i && best_score == values[best_index],
            forall|k: int| 0 <= k < i ==> values[k] <= best_score,
            forall|k: int| 0 <= k < best_index ==> values[k] < best_score,
        decreases possible_moves.len() - i,
    {
        let move_ = possible_moves[i];
        proof {
            lemma_full_moves_sound(game@.squares, piece, i as int);
        }
        let game_after_move = play_move(game, move_);
        let possible_moves_after_move = find_possible_moves_side(game_after_move, piece);
        let score: usize = possible_moves_after_move.len();
        assert(score == values[i as int]);
        if score > best_score {
            best_score = score;
            best_move = move_;
            proof {
                best_index = i as int;
            }
        }
        i += 1;
    }
    assert(is_first_greatest(values, best_index));
    best_move
}

/// Chooses the move after which the other side has the fewest full moves;
/// among equals, the first generated. The side to move must have a move.
#[allow(non_snake_case)]
pub fn obstruction_AI(game: Game) -> (best: FullMove)
    requires
        moves_of(game@).len() > 0,
    ensures
        exists|j: int|
            is_first_least(mobility_after(game@, opposite(turn_piece(game@.turn))), j) && best
                == moves_of(game@)[j],
{
    let piece: Piece = turn_to_piece(game.turn);
    let enemy: Piece = opposite_piece(piece);
    let possible_moves = find_possible_moves_side(game, piece);
    let ghost values = mobility_after(game@, enemy);
    let mut best_move: FullMove = possible_moves[0];
    let mut best_score: usize = 100000;
    let ghost mut best_index: int = 0;
    let mut i: usize = 0;
    while i < possible_moves.len()
        invariant
            possible_moves@ == moves_of(game@),
            piece == turn_piece(game@.turn),
            enemy == opposite(piece),
            values == mobility_after(game@, enemy),
            i <= possible_moves.len(),
            possible_moves.len() > 0,
            0 <= best_index < possible_moves.len(),
            best_move == possible_moves@[best_index],
            i == 0 ==> best_index == 0 && best_score == 100000,
            i > 0 ==> best_index < i && best_score == values[best_index],
            forall|k: int| 0 <= k < i ==> values[k] >= best_score,
            forall|k: int| 0 <= k < best_index ==> values[k] > best_score,
        decreases possible_moves.len() - i,
    {
        let move_ = possible_moves[i];
        proof {
            lemma_full_moves_sound(game@.squares, piece, i as int);
        }
        let game_after_move = play_move(game, move_);
        let possible_enemy_moves = find_possible_moves_side(game_after_move, enemy);
        let score: usize = possible_enemy_moves.len();
        proof {
            lemma_mobility_limit(game_after_move@.squares, enemy);
        }
        assert(score == values[i as int]);
        if score < best_score {
            best_score = score;
            best_move = move_;
            proof {
                best_index = i as int;
            }
        }
        i += 1;
    }
    assert(is_first_least(values, best_index));
    best_move
}

} // verus!
