//! What the move-selection engines share: scored moves, the scores of won
//! and lost positions, and the test of the node budget.

use vstd::prelude::*;
use vstd::arithmetic::power::{lemma_pow_increases, pow};
use crate::board::{turn_piece, Coordinate, FullMove, Piece, Position};
use crate::movegen::full_moves;
use crate::terminal::white_wins;

verus! {

/// The score of a position that the evaluating side has won; a lost one
/// scores the negative.
pub const WIN_SCORE: i32 = 100000;

/// The number of plies that the tree searches look ahead at most.
pub const SEARCH_DEPTH: u8 = 4;

/// A full move with its score in the eyes of a fixed side.
#[derive(Copy, Clone, PartialEq, Eq, Structural, Hash, Debug)]
pub struct FullMoveEvaluation {
    pub full_move: FullMove,
    pub score: i32,
}

/// The full moves of the side to move, in the order of generation.
pub open spec fn moves_of(pos: Position) -> Seq<FullMove> {
    full_moves(pos.squares, turn_piece(pos.turn))
}

/// The move that stands in a result where no move was chosen: all three
/// squares are the first square of the board.
pub open spec fn null_move() -> FullMove {
    FullMove {
        from: Coordinate { y: 0, x: 0 },
        to: Coordinate { y: 0, x: 0 },
        shoot: Coordinate { y: 0, x: 0 },
    }
}

/// The score, in the eyes of `piece`, of a position in which the game is
/// over: `WIN_SCORE` if `piece` is the winner, its negative if not.
pub open spec fn terminal_score(pos: Position, piece: Piece) -> int {
    if turn_piece(white_wins(pos)) == piece {
        100000
    } else {
        -100000
    }
}

/// The move of a result that names no move.
pub fn no_move() -> (m: FullMove)
    ensures
        m == null_move(),
{
    FullMove {
        from: Coordinate { y: 0, x: 0 },
        to: Coordinate { y: 0, x: 0 },
        shoot: Coordinate { y: 0, x: 0 },
    }
}

/// `x` to the power `y`, or `None` where that does not fit the machine word.
pub fn power(x: usize, y: u8) -> (r: Option<usize>)
    ensures
        match r {
            Some(v) => v == pow(x as int, y as nat),
            None => pow(x as int, y as nat) > usize::MAX,
        },
{
    let mut result: usize = 1;
    let mut i: u8 = 0;
    proof {
        reveal(pow);
    }
    while i < y
        invariant
            i <= y,
            result == pow(x as int, i as nat),
        decreases y - i,
    {
        match result.checked_mul(x) {
            Some(next) => {
                proof {
                    reveal(pow);
                    assert(pow(x as int, (i + 1) as nat) == x * pow(x as int, i as nat));
                    assert(result * x == x * result) by (nonlinear_arith);
                }
                result = next;
            },
            None => {
                proof {
                    reveal(pow);
                    assert(pow(x as int, (i + 1) as nat) == x * pow(x as int, i as nat));
                    assert(result * x == x * result) by (nonlinear_arith);
                    assert(x > 0) by (nonlinear_arith)
                        requires
                            result * x > usize::MAX,
                            result >= 0,
                            x >= 0,
                    ;
                    lemma_pow_increases(x as nat, (i + 1) as nat, y as nat);
                }
                return None;
            },
        }
        i += 1;
    }
    Some(result)
}

/// Tests whether a tree of the given branching factor and depth has more
/// leaves than the node budget allows: `branching ^ depth > budget`.
pub fn exceeds_budget(branching: usize, depth: u8, budget: usize) -> (r: bool)
    ensures
        r == (pow(branching as int, depth as nat) > budget),
{
    match power(branching, depth) {
        Some(leaves) => leaves > budget,
        None => true,
    }
}

/// `j` is the first position of the greatest value of `values`.
pub open spec fn is_first_greatest(values: Seq<int>, j: int) -> bool {
    &&& 0 <= j < values.len()
    &&& forall|i: int| 0 <= i < values.len() ==> values[i] <= values[j]
    &&& forall|i: int| 0 <= i < j ==> values[i] < values[j]
}

/// `j` is the first position of the least value of `values`.
pub open spec fn is_first_least(values: Seq<int>, j: int) -> bool {
    &&& 0 <= j < values.len()
    &&& forall|i: int| 0 <= i < values.len() ==> values[i] >= values[j]
    &&& forall|i: int| 0 <= i < j ==> values[i] > values[j]
}

} // verus!
