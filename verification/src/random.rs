//! A move picked at random among the full moves of a side.

use vstd::prelude::*;
use rand::rngs::ThreadRng;
use rand::Rng;
use crate::board::{FullMove, Game, Piece};
use crate::movegen::{find_possible_moves_side, full_moves};

verus! {

/// `rand::rngs::ThreadRng`, the handle to the random number generator of
/// a thread. Nothing is known of its inside.
#[verifier::external_type_specification]
#[verifier::external_body]
pub struct ExThreadRng(ThreadRng);

/// `rand::thread_rng`: hands out the random number generator of the
/// current thread. Nothing is claimed of it.
#[verifier::external_body]
pub(crate) fn thread_generator() -> ThreadRng {
    rand::thread_rng()
}

/// `rand::Rng::gen_range` with the lower bound 0: trusted to return a
/// number below `high`, whatever the generator yields. The call panics
/// where the range is empty, so `high` must be positive.
#[verifier::external_body]
pub(crate) fn random_below(rng: &mut ThreadRng, high: usize) -> (index: usize)
    requires
        high > 0,
    ensures
        index < high,
{
    rng.gen_range(0, high)
}

/// The move at position `index` of a list of moves.
pub fn pick_full_move(possible_moves: &Vec<FullMove>, index: usize) -> (m: FullMove)
    requires
        index < possible_moves.len(),
    ensures
        m == possible_moves@[index as int],
{
    possible_moves[index]
}

/// Picks one of the full moves of `side` at random. There must be one.
pub fn random_full_move(game: Game, side: Piece) -> (m: FullMove)
    requires
        full_moves(game@.squares, side).len() > 0,
    ensures
        full_moves(game@.squares, side).contains(m),
{
    let possible_moves = find_possible_moves_side(game, side);
    let mut rng = thread_generator();
    let index = random_below(&mut rng, possible_moves.len());
    pick_full_move(&possible_moves, index)
}

} // verus!
