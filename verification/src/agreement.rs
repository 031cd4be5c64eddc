//! Where the memoized search and the plain search agree: as long as the
//! node budget lets the search look two moves ahead at most, no position
//! is found in the memo with a result that another search would not give.

use vstd::prelude::*;
use vstd::arithmetic::power::pow;
use crate::alpha_beta::{
    alpha_beta_scan, alpha_beta_value, lemma_searched_depth_fits, searched_depth,
};
use crate::board::{turn_piece, FullMove, Piece, Position};
use crate::cache::Memo;
use crate::distinct::lemma_full_moves_differ;
use crate::memo::{memo_lookup, memo_scan, memo_value, static_result};
use crate::movegen::lemma_full_moves_sound;
use crate::rules::{lemma_one_more_occupied, lemma_played_injective, occupied, played, valid_full_move};
use crate::search::moves_of;
use crate::terminal::game_over;

verus! {

/// All that the memo holds for positions with `count` occupied squares are
/// results of searches that looked no move ahead.
pub open spec fn static_at(memo: Memo, count: nat) -> bool {
    forall|k: (Position, Piece)|
        memo.contains_key(k) && occupied(k.0) == count ==> #[trigger] memo[k] == static_result(
            k.0,
            k.1,
        )
}

/// `after` holds what `before` holds, but for positions with `count`
/// occupied squares.
pub open spec fn same_elsewhere(before: Memo, after: Memo, count: nat) -> bool {
    forall|k: (Position, Piece)|
        occupied(k.0) != count ==> (#[trigger] after.contains_key(k)) == before.contains_key(k) && (
        before.contains_key(k) ==> after[k] == before[k])
}

/// The positions with one occupied square more than `pos` that the memo
/// knows are successors of `pos` by one of its first `i` moves.
pub open spec fn knows_successors_only(memo: Memo, pos: Position, i: nat) -> bool {
    forall|k: (Position, Piece)|
        #[trigger] memo.contains_key(k) && occupied(k.0) == occupied(pos) + 1 ==> exists|j: int|
            0 <= j < i && k.0 == played(pos, #[trigger] moves_of(pos)[j])
}

proof fn lemma_successor(pos: Position, i: int)
    requires
        pos.wf(),
        0 <= i < moves_of(pos).len(),
    ensures
        valid_full_move(pos, moves_of(pos)[i]),
        played(pos, moves_of(pos)[i]).wf(),
        occupied(played(pos, moves_of(pos)[i])) == occupied(pos) + 1,
{
    lemma_full_moves_sound(pos.squares, turn_piece(pos.turn), i);
    lemma_one_more_occupied(pos, moves_of(pos)[i]);
}

proof fn lemma_one_ply_scan(
    memo: Memo,
    pos: Position,
    piece: Piece,
    budget: nat,
    alpha: int,
    beta: int,
    maximizing: bool,
    i: nat,
    best: (FullMove, int),
)
    requires
        pos.wf(),
        static_at(memo, occupied(pos) + 1),
    ensures
        memo_scan(memo, pos, piece, budget, 1, alpha, beta, maximizing, i, best).0
            == alpha_beta_scan(pos, piece, budget, 1, alpha, beta, maximizing, i, best),
        static_at(
            memo_scan(memo, pos, piece, budget, 1, alpha, beta, maximizing, i, best).1,
            occupied(pos) + 1,
        ),
        same_elsewhere(
            memo,
            memo_scan(memo, pos, piece, budget, 1, alpha, beta, maximizing, i, best).1,
            occupied(pos) + 1,
        ),
    decreases moves_of(pos).len() - i,
{
    let len = moves_of(pos).len();
    let count = occupied(pos) + 1;
    if i < len {
        let m = moves_of(pos)[i as int];
        let next = played(pos, m);
        lemma_successor(pos, i as int);
        let (found, after) = memo_lookup(memo, next, piece, budget, 0, alpha, beta, !maximizing);
        assert(found == static_result(next, piece));
        assert(found == alpha_beta_value(next, piece, budget, 0, alpha, beta, !maximizing));
        assert(static_at(after, count));
        assert(same_elsewhere(memo, after, count));
        let reply = found.1;
        if maximizing {
            let better = if reply > best.1 {
                (m, reply)
            } else {
                best
            };
            if reply < beta {
                let raised = if reply > alpha {
                    reply
                } else {
                    alpha
                };
                lemma_one_ply_scan(after, pos, piece, budget, raised, beta, maximizing, i + 1, better);
                lemma_same_elsewhere_twice(
                    memo,
                    after,
                    memo_scan(after, pos, piece, budget, 1, raised, beta, maximizing, i + 1, better).1,
                    count,
                );
            }
        } else {
            let better = if reply < best.1 {
                (m, reply)
            } else {
                best
            };
            if reply > alpha {
                let lowered = if reply < beta {
                    reply
                } else {
                    beta
                };
                lemma_one_ply_scan(after, pos, piece, budget, alpha, lowered, maximizing, i + 1, better);
                lemma_same_elsewhere_twice(
                    memo,
                    after,
                    memo_scan(after, pos, piece, budget, 1, alpha, lowered, maximizing, i + 1, better).1,
                    count,
                );
            }
        }
    }
}

proof fn lemma_one_ply_value(
    memo: Memo,
    pos: Position,
    piece: Piece,
    budget: nat,
    depth: nat,
    alpha: int,
    beta: int,
    maximizing: bool,
)
    requires
        pos.wf(),
        static_at(memo, occupied(pos) + 1),
        searched_depth(moves_of(pos).len(), depth, budget) <= 1,
    ensures
        memo_value(memo, pos, piece, budget, depth, alpha, beta, maximizing).0 == alpha_beta_value(
            pos,
            piece,
            budget,
            depth,
            alpha,
            beta,
            maximizing,
        ),
        static_at(
            memo_value(memo, pos, piece, budget, depth, alpha, beta, maximizing).1,
            occupied(pos) + 1,
        ),
        same_elsewhere(
            memo,
            memo_value(memo, pos, piece, budget, depth, alpha, beta, maximizing).1,
            occupied(pos) + 1,
        ),
    decreases depth,
{
    if game_over(pos) || depth == 0 {
    } else if pow(moves_of(pos).len() as int, depth) > budget {
        lemma_one_ply_value(memo, pos, piece, budget, (depth - 1) as nat, alpha, beta, maximizing);
    } else {
        assert(depth == 1);
        let start = (moves_of(pos)[0], if maximizing {
            -100000int
        } else {
            100000int
        });
        lemma_one_ply_scan(memo, pos, piece, budget, alpha, beta, maximizing, 0, start);
    }
}

proof fn lemma_two_ply_scan(
    memo: Memo,
    pos: Position,
    piece: Piece,
    budget: nat,
    alpha: int,
    beta: int,
    maximizing: bool,
    i: nat,
    best: (FullMove, int),
)
    requires
        pos.wf(),
        static_at(memo, occupied(pos) + 2),
        knows_successors_only(memo, pos, i),
    ensures
        memo_scan(memo, pos, piece, budget, 2, alpha, beta, maximizing, i, best).0
            == alpha_beta_scan(pos, piece, budget, 2, alpha, beta, maximizing, i, best),
    decreases moves_of(pos).len() - i,
{
    let len = moves_of(pos).len();
    let count = occupied(pos);
    if i < len {
        let m = moves_of(pos)[i as int];
        let next = played(pos, m);
        lemma_successor(pos, i as int);
        if memo.contains_key((next, piece)) {
            let j = choose|j: int| 0 <= j < i && next == played(pos, #[trigger] moves_of(pos)[j]);
            lemma_successor(pos, j);
            lemma_played_injective(pos, m, moves_of(pos)[j]);
            lemma_full_moves_differ(pos.squares, turn_piece(pos.turn), i as int, j);
        }
        lemma_searched_depth_fits(moves_of(next).len(), 1, budget);
        lemma_one_ply_value(memo, next, piece, budget, 1, alpha, beta, !maximizing);
        let (found, searched) = memo_value(memo, next, piece, budget, 1, alpha, beta, !maximizing);
        let after = searched.insert((next, piece), found);
        assert(memo_lookup(memo, next, piece, budget, 1, alpha, beta, !maximizing) == (
            found,
            after,
        ));
        assert(static_at(after, count + 2));
        assert forall|k: (Position, Piece)| #[trigger]
            after.contains_key(k) && occupied(k.0) == count + 1 implies exists|j: int|
            0 <= j < i + 1 && k.0 == played(pos, #[trigger] moves_of(pos)[j]) by {
            if k == (next, piece) {
                assert(k.0 == played(pos, moves_of(pos)[i as int]));
            } else {
                assert(searched.contains_key(k));
                assert(memo.contains_key(k));
                let j = choose|j: int| 0 <= j < i && k.0 == played(pos, #[trigger] moves_of(pos)[j]);
                assert(0 <= j < i + 1 && k.0 == played(pos, moves_of(pos)[j]));
            }
        }
        let reply = found.1;
        if maximizing {
            let better = if reply > best.1 {
                (m, reply)
            } else {
                best
            };
            if reply < beta {
                let raised = if reply > alpha {
                    reply
                } else {
                    alpha
                };
                lemma_two_ply_scan(after, pos, piece, budget, raised, beta, maximizing, i + 1, better);
            }
        } else {
            let better = if reply < best.1 {
                (m, reply)
            } else {
                best
            };
            if reply > alpha {
                let lowered = if reply < beta {
                    reply
                } else {
                    beta
                };
                lemma_two_ply_scan(after, pos, piece, budget, alpha, lowered, maximizing, i + 1, better);
            }
        }
    }
}

/// Where the node budget lets the search look two moves ahead at most, the
/// memoized search gives the move and the score of the plain search,
/// provided that the memo it starts with knows no position with one
/// occupied square more than `pos`, and for positions with two more holds
/// nothing but results of searches that looked no move ahead.
pub proof fn lemma_memo_agrees_within_two_plies(
    memo: Memo,
    pos: Position,
    piece: Piece,
    budget: nat,
    depth: nat,
    alpha: int,
    beta: int,
    maximizing: bool,
)
    requires
        pos.wf(),
        knows_successors_only(memo, pos, 0),
        static_at(memo, occupied(pos) + 2),
        searched_depth(moves_of(pos).len(), depth, budget) <= 2,
    ensures
        memo_value(memo, pos, piece, budget, depth, alpha, beta, maximizing).0 == alpha_beta_value(
            pos,
            piece,
            budget,
            depth,
            alpha,
            beta,
            maximizing,
        ),
    decreases depth,
{
    if game_over(pos) || depth == 0 {
    } else if pow(moves_of(pos).len() as int, depth) > budget {
        lemma_memo_agrees_within_two_plies(
            memo,
            pos,
            piece,
            budget,
            (depth - 1) as nat,
            alpha,
            beta,
            maximizing,
        );
    } else {
        let start = (moves_of(pos)[0], if maximizing {
            -100000int
        } else {
            100000int
        });
        if depth == 1 {
            assert(static_at(memo, occupied(pos) + 1));
            lemma_one_ply_scan(memo, pos, piece, budget, alpha, beta, maximizing, 0, start);
        } else {
            lemma_two_ply_scan(memo, pos, piece, budget, alpha, beta, maximizing, 0, start);
        }
    }
}

/// A search that starts with an empty memo, under a node budget that lets
/// it look two moves ahead at most, reports the score that the search
/// without memo reports, and names the same move.
pub proof fn lemma_memoized_score_is_plain_score(
    pos: Position,
    piece: Piece,
    budget: nat,
    depth: nat,
    alpha: int,
    beta: int,
    maximizing: bool,
)
    requires
        pos.wf(),
        searched_depth(moves_of(pos).len(), depth, budget) <= 2,
    ensures
        memo_value(Map::empty(), pos, piece, budget, depth, alpha, beta, maximizing).0
            == alpha_beta_value(pos, piece, budget, depth, alpha, beta, maximizing),
{
    lemma_memo_agrees_within_two_plies(
        Map::empty(),
        pos,
        piece,
        budget,
        depth,
        alpha,
        beta,
        maximizing,
    );
}

proof fn lemma_same_elsewhere_twice(first: Memo, second: Memo, third: Memo, count: nat)
    requires
        same_elsewhere(first, second, count),
        same_elsewhere(second, third, count),
    ensures
        same_elsewhere(first, third, count),
{
    assert forall|k: (Position, Piece)| occupied(k.0) != count implies (
    #[trigger] third.contains_key(k)) == first.contains_key(k) && (first.contains_key(k)
        ==> third[k] == first[k]) by {
        assert(second.contains_key(k) == first.contains_key(k));
    }
}

} // verus!
