//! Depth-bounded alpha-beta search whose depth adapts to the node budget.

use vstd::prelude::*;
use vstd::arithmetic::power::{lemma_pow1, lemma_pow_increases, pow};
use crate::board::{turn_piece, turn_to_piece, FullMove, Game, Piece, Position};
use crate::bounds::lemma_evaluation_range;
use crate::evaluate::{evaluation, full_evaluation};
use crate::movegen::{find_possible_moves_side, lemma_full_moves_sound};
use crate::rules::{play_move, played, valid_full_move};
use crate::search::{
    exceeds_budget, is_first_greatest, moves_of, no_move, null_move, terminal_score,
    FullMoveEvaluation, SEARCH_DEPTH, WIN_SCORE,
};
use crate::terminal::{game_over, is_over, lemma_generated_iff_legal};

verus! {

/// The value of `pos` for `piece` by minimax to `depth` plies.
///
/// A position in which the game is over is worth `terminal_score`. At depth
/// 0 a position is worth its `evaluation`. Where a tree of this position's
/// branching factor and of depth `depth` has more leaves than `budget`, the
/// position is searched one ply less deep. Otherwise it is worth the best of
/// the values of its successors, searched one ply less deep: the greatest,
/// and at least `-WIN_SCORE`, when `maximizing`; the least, and at most
/// `WIN_SCORE`, when not.
pub open spec fn minimax(pos: Position, piece: Piece, budget: nat, depth: nat, maximizing: bool) -> int
    decreases depth, 1 + moves_of(pos).len(),
{
    if game_over(pos) {
        terminal_score(pos, piece)
    } else if depth == 0 {
        evaluation(pos, piece)
    } else if pow(moves_of(pos).len() as int, depth) > budget {
        minimax(pos, piece, budget, (depth - 1) as nat, maximizing)
    } else {
        best_reply(pos, piece, budget, depth, maximizing, moves_of(pos).len())
    }
}

/// The best of the minimax values of the successors of `pos` by its first
/// `n` moves, each searched to `depth - 1` plies.
pub open spec fn best_reply(
    pos: Position,
    piece: Piece,
    budget: nat,
    depth: nat,
    maximizing: bool,
    n: nat,
) -> int
    decreases depth, n,
{
    if n == 0 || depth == 0 || n > moves_of(pos).len() {
        if maximizing {
            -100000
        } else {
            100000
        }
    } else {
        let rest = best_reply(pos, piece, budget, depth, maximizing, (n - 1) as nat);
        let reply = minimax(
            played(pos, moves_of(pos)[n - 1]),
            piece,
            budget,
            (depth - 1) as nat,
            !maximizing,
        );
        if maximizing {
            if reply > rest {
                reply
            } else {
                rest
            }
        } else {
            if reply < rest {
                reply
            } else {
                rest
            }
        }
    }
}

/// The result of the alpha-beta search of `pos`: a move and its score.
///
/// It differs from `minimax` in that the successors are searched one after
/// the other inside the window `(alpha, beta)`, which narrows as scores come
/// in, and that the search of a position ends with the first successor
/// whose score reaches the far bound. A position that is over, or searched
/// at depth 0, has `null_move` for its move.
pub open spec fn alpha_beta_value(
    pos: Position,
    piece: Piece,
    budget: nat,
    depth: nat,
    alpha: int,
    beta: int,
    maximizing: bool,
) -> (FullMove, int)
    decreases depth, 1 + moves_of(pos).len(),
{
    if game_over(pos) {
        (null_move(), terminal_score(pos, piece))
    } else if depth == 0 {
        (null_move(), evaluation(pos, piece))
    } else if pow(moves_of(pos).len() as int, depth) > budget {
        alpha_beta_value(pos, piece, budget, (depth - 1) as nat, alpha, beta, maximizing)
    } else {
        alpha_beta_scan(
            pos,
            piece,
            budget,
            depth,
            alpha,
            beta,
            maximizing,
            0,
            (
                moves_of(pos)[0],
                if maximizing {
                    -100000
                } else {
                    100000
                },
            ),
        )
    }
}

/// The result of the alpha-beta search of `pos` once its first `i` moves
/// have been searched, with `best` the best move and score so far and
/// `(alpha, beta)` the window as it stands.
pub open spec fn alpha_beta_scan(
    pos: Position,
    piece: Piece,
    budget: nat,
    depth: nat,
    alpha: int,
    beta: int,
    maximizing: bool,
    i: nat,
    best: (FullMove, int),
) -> (FullMove, int)
    decreases depth, moves_of(pos).len() - i,
{
    if i >= moves_of(pos).len() || depth == 0 {
        best
    } else {
        let m = moves_of(pos)[i as int];
        let reply = alpha_beta_value(
            played(pos, m),
            piece,
            budget,
            (depth - 1) as nat,
            alpha,
            beta,
            !maximizing,
        ).1;
        if maximizing {
            let better = if reply > best.1 {
                (m, reply)
            } else {
                best
            };
            if reply >= beta {
                better
            } else {
                alpha_beta_scan(
                    pos,
                    piece,
                    budget,
                    depth,
                    if reply > alpha {
                        reply
                    } else {
                        alpha
                    },
                    beta,
                    maximizing,
                    i + 1,
                    better,
                )
            }
        } else {
            let better = if reply < best.1 {
                (m, reply)
            } else {
                best
            };
            if reply <= alpha {
                better
            } else {
                alpha_beta_scan(
                    pos,
                    piece,
                    budget,
                    depth,
                    alpha,
                    if reply < beta {
                        reply
                    } else {
                        beta
                    },
                    maximizing,
                    i + 1,
                    better,
                )
            }
        }
    }
}

/// Searches `game` to `depth` plies for `piece` inside the window
/// `(alpha, beta)`, and returns the move found with its score.
pub fn alpha_beta(
    max_count: usize,
    game: Game,
    piece: Piece,
    depth: u8,
    alpha: i32,
    beta: i32,
    maximizing: bool,
) -> (result: FullMoveEvaluation)
    ensures
        (result.full_move, result.score as int) == alpha_beta_value(
            game@,
            piece,
            max_count as nat,
            depth as nat,
            alpha as int,
            beta as int,
            maximizing,
        ),
        alpha < beta ==> bounds_value(
            result.score as int,
            minimax(game@, piece, max_count as nat, depth as nat, maximizing),
            alpha as int,
            beta as int,
        ),
        -100000 <= result.score <= 100000,
    decreases depth,
{
    proof {
        lemma_alpha_beta_range(
            game@,
            piece,
            max_count as nat,
            depth as nat,
            alpha as int,
            beta as int,
            maximizing,
        );
        if alpha < beta {
            lemma_alpha_beta_sound(
                game@,
                piece,
                max_count as nat,
                depth as nat,
                alpha as int,
                beta as int,
                maximizing,
            );
        }
    }
    let ghost target = alpha_beta_value(
        game@,
        piece,
        max_count as nat,
        depth as nat,
        alpha as int,
        beta as int,
        maximizing,
    );
    let status = is_over(game);
    if status.over {
        if turn_to_piece(status.winner) == piece {
            return FullMoveEvaluation { full_move: no_move(), score: WIN_SCORE };
        } else {
            return FullMoveEvaluation { full_move: no_move(), score: -WIN_SCORE };
        }
    }
    let possible_moves = find_possible_moves_side(game, turn_to_piece(game.turn));
    let mut remaining: u8 = depth;
    while remaining > 0 && exceeds_budget(possible_moves.len(), remaining, max_count)
        invariant
            remaining <= depth,
            !game_over(game@),
            possible_moves@ == moves_of(game@),
            target == alpha_beta_value(
                game@,
                piece,
                max_count as nat,
                remaining as nat,
                alpha as int,
                beta as int,
                maximizing,
            ),
        decreases remaining,
    {
        remaining -= 1;
    }
    if remaining == 0 {
        return FullMoveEvaluation { full_move: no_move(), score: full_evaluation(game, piece) };
    }
    let mut best_move: FullMove = possible_moves[0];
    let mut best_score: i32 = if maximizing {
        -WIN_SCORE
    } else {
        WIN_SCORE
    };
    let mut low: i32 = alpha;
    let mut high: i32 = beta;
    let mut i: usize = 0;
    while i < possible_moves.len()
        invariant_except_break
            i <= possible_moves.len(),
            target == alpha_beta_scan(
                game@,
                piece,
                max_count as nat,
                remaining as nat,
                low as int,
                high as int,
                maximizing,
                i as nat,
                (best_move, best_score as int),
            ),
        invariant
            0 < remaining <= depth,
            possible_moves@ == moves_of(game@),
        ensures
            target == (best_move, best_score as int),
        decreases possible_moves.len() - i,
    {
        let move_ = possible_moves[i];
        proof {
            lemma_full_moves_sound(game@.squares, turn_piece(game@.turn), i as int);
        }
        let game_after_move = play_move(game, move_);
        let next_recursion = alpha_beta(
            max_count,
            game_after_move,
            piece,
            remaining - 1,
            low,
            high,
            !maximizing,
        );
        if maximizing {
            if next_recursion.score > best_score {
                best_score = next_recursion.score;
                best_move = move_;
            }
            if next_recursion.score >= high {
                break ;
            }
            if next_recursion.score > low {
                low = next_recursion.score;
            }
        } else {
            if next_recursion.score < best_score {
                best_score = next_recursion.score;
                best_move = move_;
            }
            if next_recursion.score <= low {
                break ;
            }
            if next_recursion.score < high {
                high = next_recursion.score;
            }
        }
        i += 1;
    }
    FullMoveEvaluation { full_move: best_move, score: best_score }
}

/// Chooses a move for the side to move by alpha-beta search to at most
/// `SEARCH_DEPTH` plies, under the node budget `max_count`. Where the game
/// is over the result is `null_move`.
#[allow(non_snake_case)]
pub fn obstruction_AI_alpha_beta(game: Game, max_count: usize) -> (best: FullMove)
    ensures
        best == alpha_beta_value(
            game@,
            turn_piece(game@.turn),
            max_count as nat,
            4,
            -100000,
            100000,
            true,
        ).0,
        game_over(game@) || moves_of(game@).len() > max_count ==> best == null_move(),
        !game_over(game@) && moves_of(game@).len() <= max_count ==> valid_full_move(game@, best)
            && exists|w: int|
            is_first_greatest(
                reply_values(
                    game@,
                    turn_piece(game@.turn),
                    max_count as nat,
                    searched_depth(moves_of(game@).len(), 4, max_count as nat),
                    true,
                ),
                w,
            ) && best == moves_of(game@)[w],
{
    let piece: Piece = turn_to_piece(game.turn);
    proof {
        let budget = max_count as nat;
        let depth = searched_depth(moves_of(game@).len(), 4, budget);
        lemma_search_at_searched_depth(game@, piece, budget, 4, -100000, 100000, true);
        lemma_one_ply_needs_a_node_for_each_move(moves_of(game@).len(), 4, budget);
        lemma_searched_depth_fits(moves_of(game@).len(), 4, budget);
        if !game_over(game@) && moves_of(game@).len() <= max_count {
            let w = lemma_alpha_beta_names_first_best_move(game@, piece, budget, depth);
            lemma_alpha_beta_names_legal_move(game@, piece, budget, 4, -100000, 100000, true);
        }
    }
    let full_move_evaluation = alpha_beta(
        max_count,
        game,
        piece,
        SEARCH_DEPTH,
        -WIN_SCORE,
        WIN_SCORE,
        true,
    );
    full_move_evaluation.full_move
}

/// How the score `r` of a search inside the window `(alpha, beta)` stands
/// to the minimax value `v`: inside the window it is the value; at or below
/// `alpha` it is an upper bound of the value; at or above `beta` a lower
/// bound.
pub open spec fn bounds_value(r: int, v: int, alpha: int, beta: int) -> bool {
    &&& alpha < r < beta ==> r == v
    &&& r <= alpha ==> v <= r
    &&& r >= beta ==> v >= r
}

proof fn lemma_best_reply_grows(
    pos: Position,
    piece: Piece,
    budget: nat,
    depth: nat,
    maximizing: bool,
    n: nat,
    m: nat,
)
    requires
        n <= m <= moves_of(pos).len(),
        depth > 0,
    ensures
        maximizing ==> best_reply(pos, piece, budget, depth, maximizing, n) <= best_reply(
            pos,
            piece,
            budget,
            depth,
            maximizing,
            m,
        ),
        !maximizing ==> best_reply(pos, piece, budget, depth, maximizing, n) >= best_reply(
            pos,
            piece,
            budget,
            depth,
            maximizing,
            m,
        ),
    decreases m - n,
{
    if n < m {
        lemma_best_reply_grows(pos, piece, budget, depth, maximizing, n, (m - 1) as nat);
    }
}

/// The score of an alpha-beta search bounds the minimax value of the
/// position as `bounds_value` says; in particular it is that value whenever
/// it falls strictly inside the window.
pub proof fn lemma_alpha_beta_sound(
    pos: Position,
    piece: Piece,
    budget: nat,
    depth: nat,
    alpha: int,
    beta: int,
    maximizing: bool,
)
    requires
        alpha < beta,
    ensures
        bounds_value(
            alpha_beta_value(pos, piece, budget, depth, alpha, beta, maximizing).1,
            minimax(pos, piece, budget, depth, maximizing),
            alpha,
            beta,
        ),
    decreases depth, 1 + moves_of(pos).len(),
{
    if game_over(pos) {
    } else if depth == 0 {
    } else if pow(moves_of(pos).len() as int, depth) > budget {
        lemma_alpha_beta_sound(pos, piece, budget, (depth - 1) as nat, alpha, beta, maximizing);
    } else if maximizing {
        lemma_scan_max_sound(pos, piece, budget, depth, alpha, alpha, beta, 0, (moves_of(pos)[0], -100000));
    } else {
        lemma_scan_min_sound(pos, piece, budget, depth, alpha, beta, beta, 0, (moves_of(pos)[0], 100000));
    }
}

proof fn lemma_scan_max_sound(
    pos: Position,
    piece: Piece,
    budget: nat,
    depth: nat,
    alpha0: int,
    alpha: int,
    beta: int,
    i: nat,
    best: (FullMove, int),
)
    requires
        depth > 0,
        i <= moves_of(pos).len(),
        alpha0 <= alpha < beta,
        alpha <= alpha0 || alpha <= best.1,
        best.1 > alpha0 ==> best.1 == best_reply(pos, piece, budget, depth, true, i),
        best.1 <= alpha0 ==> best_reply(pos, piece, budget, depth, true, i) <= best.1,
    ensures
        bounds_value(
            alpha_beta_scan(pos, piece, budget, depth, alpha, beta, true, i, best).1,
            best_reply(pos, piece, budget, depth, true, moves_of(pos).len()),
            alpha0,
            beta,
        ),
    decreases depth, moves_of(pos).len() - i,
{
    let len = moves_of(pos).len();
    if i < len {
        let m = moves_of(pos)[i as int];
        let next = played(pos, m);
        lemma_alpha_beta_sound(next, piece, budget, (depth - 1) as nat, alpha, beta, false);
        let reply = alpha_beta_value(next, piece, budget, (depth - 1) as nat, alpha, beta, false).1;
        let value = minimax(next, piece, budget, (depth - 1) as nat, false);
        let before = best_reply(pos, piece, budget, depth, true, i);
        let after = best_reply(pos, piece, budget, depth, true, i + 1);
        assert(after == if value > before {
            value
        } else {
            before
        });
        let better = if reply > best.1 {
            (m, reply)
        } else {
            best
        };
        if reply >= beta {
            lemma_best_reply_grows(pos, piece, budget, depth, true, i + 1, len);
        } else {
            let raised = if reply > alpha {
                reply
            } else {
                alpha
            };
            lemma_scan_max_sound(pos, piece, budget, depth, alpha0, raised, beta, i + 1, better);
        }
    }
}

proof fn lemma_scan_min_sound(
    pos: Position,
    piece: Piece,
    budget: nat,
    depth: nat,
    alpha: int,
    beta: int,
    beta0: int,
    i: nat,
    best: (FullMove, int),
)
    requires
        depth > 0,
        i <= moves_of(pos).len(),
        alpha < beta <= beta0,
        beta >= beta0 || beta >= best.1,
        best.1 < beta0 ==> best.1 == best_reply(pos, piece, budget, depth, false, i),
        best.1 >= beta0 ==> best_reply(pos, piece, budget, depth, false, i) >= best.1,
    ensures
        bounds_value(
            alpha_beta_scan(pos, piece, budget, depth, alpha, beta, false, i, best).1,
            best_reply(pos, piece, budget, depth, false, moves_of(pos).len()),
            alpha,
            beta0,
        ),
    decreases depth, moves_of(pos).len() - i,
{
    let len = moves_of(pos).len();
    if i < len {
        let m = moves_of(pos)[i as int];
        let next = played(pos, m);
        lemma_alpha_beta_sound(next, piece, budget, (depth - 1) as nat, alpha, beta, true);
        let reply = alpha_beta_value(next, piece, budget, (depth - 1) as nat, alpha, beta, true).1;
        let value = minimax(next, piece, budget, (depth - 1) as nat, true);
        let before = best_reply(pos, piece, budget, depth, false, i);
        let after = best_reply(pos, piece, budget, depth, false, i + 1);
        assert(after == if value < before {
            value
        } else {
            before
        });
        let better = if reply < best.1 {
            (m, reply)
        } else {
            best
        };
        if reply <= alpha {
            lemma_best_reply_grows(pos, piece, budget, depth, false, i + 1, len);
        } else {
            let lowered = if reply < beta {
                reply
            } else {
                beta
            };
            lemma_scan_min_sound(pos, piece, budget, depth, alpha, lowered, beta0, i + 1, better);
        }
    }
}

/// The two budgets lead the search of `pos` to the same depth at every
/// position it visits: wherever one budget makes the search shallower, so
/// does the other.
pub open spec fn same_depths(pos: Position, first: nat, second: nat, depth: nat) -> bool
    decreases depth, 1 + moves_of(pos).len(),
{
    if game_over(pos) || depth == 0 {
        true
    } else if pow(moves_of(pos).len() as int, depth) > first {
        pow(moves_of(pos).len() as int, depth) > second && same_depths(
            pos,
            first,
            second,
            (depth - 1) as nat,
        )
    } else {
        pow(moves_of(pos).len() as int, depth) <= second && same_depths_below(
            pos,
            first,
            second,
            depth,
            moves_of(pos).len(),
        )
    }
}

/// `same_depths` for the successors of `pos` by its first `n` moves.
pub open spec fn same_depths_below(
    pos: Position,
    first: nat,
    second: nat,
    depth: nat,
    n: nat,
) -> bool
    decreases depth, n,
{
    if n == 0 || depth == 0 || n > moves_of(pos).len() {
        true
    } else {
        same_depths_below(pos, first, second, depth, (n - 1) as nat) && same_depths(
            played(pos, moves_of(pos)[n - 1]),
            first,
            second,
            (depth - 1) as nat,
        )
    }
}

proof fn lemma_same_depths_at(pos: Position, first: nat, second: nat, depth: nat, n: nat, i: int)
    requires
        depth > 0,
        0 <= i < n <= moves_of(pos).len(),
        same_depths_below(pos, first, second, depth, n),
    ensures
        same_depths(played(pos, moves_of(pos)[i]), first, second, (depth - 1) as nat),
    decreases n,
{
    if i < n - 1 {
        lemma_same_depths_at(pos, first, second, depth, (n - 1) as nat, i);
    }
}

/// A greater node budget changes the result of a search only by letting it
/// go deeper: two budgets under which every position is searched to the
/// same depth give the same move and the same score, so that the score
/// reported under the greater one is not less.
pub proof fn lemma_budget_matters_through_depth(
    pos: Position,
    piece: Piece,
    first: nat,
    second: nat,
    depth: nat,
    alpha: int,
    beta: int,
    maximizing: bool,
)
    requires
        same_depths(pos, first, second, depth),
    ensures
        alpha_beta_value(pos, piece, first, depth, alpha, beta, maximizing) == alpha_beta_value(
            pos,
            piece,
            second,
            depth,
            alpha,
            beta,
            maximizing,
        ),
    decreases depth, 1 + moves_of(pos).len(),
{
    if game_over(pos) || depth == 0 {
    } else if pow(moves_of(pos).len() as int, depth) > first {
        lemma_budget_matters_through_depth(
            pos,
            piece,
            first,
            second,
            (depth - 1) as nat,
            alpha,
            beta,
            maximizing,
        );
    } else {
        let start = (moves_of(pos)[0], if maximizing {
            -100000int
        } else {
            100000int
        });
        lemma_budget_scan(pos, piece, first, second, depth, alpha, beta, maximizing, 0, start);
    }
}

proof fn lemma_budget_scan(
    pos: Position,
    piece: Piece,
    first: nat,
    second: nat,
    depth: nat,
    alpha: int,
    beta: int,
    maximizing: bool,
    i: nat,
    best: (FullMove, int),
)
    requires
        depth > 0,
        same_depths_below(pos, first, second, depth, moves_of(pos).len()),
    ensures
        alpha_beta_scan(pos, piece, first, depth, alpha, beta, maximizing, i, best)
            == alpha_beta_scan(pos, piece, second, depth, alpha, beta, maximizing, i, best),
    decreases depth, moves_of(pos).len() - i,
{
    let len = moves_of(pos).len();
    if i < len {
        let m = moves_of(pos)[i as int];
        let next = played(pos, m);
        lemma_same_depths_at(pos, first, second, depth, len, i as int);
        lemma_budget_matters_through_depth(
            next,
            piece,
            first,
            second,
            (depth - 1) as nat,
            alpha,
            beta,
            !maximizing,
        );
        let reply = alpha_beta_value(
            next,
            piece,
            first,
            (depth - 1) as nat,
            alpha,
            beta,
            !maximizing,
        ).1;
        if maximizing {
            let better = if reply > best.1 {
                (m, reply)
            } else {
                best
            };
            if reply < beta {
                let raised = if reply > alpha {
                    reply
                } else {
                    alpha
                };
                lemma_budget_scan(pos, piece, first, second, depth, raised, beta, maximizing, i + 1, better);
            }
        } else {
            let better = if reply < best.1 {
                (m, reply)
            } else {
                best
            };
            if reply > alpha {
                let lowered = if reply < beta {
                    reply
                } else {
                    beta
                };
                lemma_budget_scan(pos, piece, first, second, depth, alpha, lowered, maximizing, i + 1, better);
            }
        }
    }
}

/// The depth to which a position with `branching` moves is searched when
/// `depth` plies are asked for under the node budget `budget`: the greatest
/// depth, not above `depth`, at which a tree of that branching factor has no
/// more leaves than the budget allows; 0 where there is none.
pub open spec fn searched_depth(branching: nat, depth: nat, budget: nat) -> nat
    decreases depth,
{
    if depth > 0 && pow(branching as int, depth) > budget {
        searched_depth(branching, (depth - 1) as nat, budget)
    } else {
        depth
    }
}

/// A greater node budget never makes the search of a position shallower.
pub proof fn lemma_searched_depth_grows(branching: nat, depth: nat, first: nat, second: nat)
    requires
        first <= second,
    ensures
        searched_depth(branching, depth, first) <= searched_depth(branching, depth, second),
        searched_depth(branching, depth, second) <= depth,
    decreases depth,
{
    if depth > 0 {
        lemma_searched_depth_grows(branching, (depth - 1) as nat, first, second);
    }
}

/// The search of a position to `depth` plies is its search to the depth
/// that the node budget allows.
pub proof fn lemma_search_at_searched_depth(
    pos: Position,
    piece: Piece,
    budget: nat,
    depth: nat,
    alpha: int,
    beta: int,
    maximizing: bool,
)
    ensures
        alpha_beta_value(pos, piece, budget, depth, alpha, beta, maximizing) == alpha_beta_value(
            pos,
            piece,
            budget,
            searched_depth(moves_of(pos).len(), depth, budget),
            alpha,
            beta,
            maximizing,
        ),
        minimax(pos, piece, budget, depth, maximizing) == minimax(
            pos,
            piece,
            budget,
            searched_depth(moves_of(pos).len(), depth, budget),
            maximizing,
        ),
    decreases depth,
{
    if depth > 0 && pow(moves_of(pos).len() as int, depth) > budget {
        lemma_search_at_searched_depth(pos, piece, budget, (depth - 1) as nat, alpha, beta, maximizing);
    }
}

proof fn lemma_scan_names_move(
    pos: Position,
    piece: Piece,
    budget: nat,
    depth: nat,
    alpha: int,
    beta: int,
    maximizing: bool,
    i: nat,
    best: (FullMove, int),
)
    requires
        moves_of(pos).contains(best.0),
    ensures
        moves_of(pos).contains(
            alpha_beta_scan(pos, piece, budget, depth, alpha, beta, maximizing, i, best).0,
        ),
    decreases moves_of(pos).len() - i,
{
    if i < moves_of(pos).len() && depth > 0 {
        let m = moves_of(pos)[i as int];
        let reply = alpha_beta_value(
            played(pos, m),
            piece,
            budget,
            (depth - 1) as nat,
            alpha,
            beta,
            !maximizing,
        ).1;
        if maximizing {
            let better = if reply > best.1 {
                (m, reply)
            } else {
                best
            };
            let raised = if reply > alpha {
                reply
            } else {
                alpha
            };
            lemma_scan_names_move(pos, piece, budget, depth, raised, beta, maximizing, i + 1, better);
        } else {
            let better = if reply < best.1 {
                (m, reply)
            } else {
                best
            };
            let lowered = if reply < beta {
                reply
            } else {
                beta
            };
            lemma_scan_names_move(pos, piece, budget, depth, alpha, lowered, maximizing, i + 1, better);
        }
    }
}

/// While the game goes on, a search that the node budget lets look one
/// move ahead at least names a legal move.
pub proof fn lemma_alpha_beta_names_legal_move(
    pos: Position,
    piece: Piece,
    budget: nat,
    depth: nat,
    alpha: int,
    beta: int,
    maximizing: bool,
)
    requires
        !game_over(pos),
        searched_depth(moves_of(pos).len(), depth, budget) >= 1,
    ensures
        valid_full_move(
            pos,
            alpha_beta_value(pos, piece, budget, depth, alpha, beta, maximizing).0,
        ),
    decreases depth,
{
    if pow(moves_of(pos).len() as int, depth) > budget {
        lemma_alpha_beta_names_legal_move(
            pos,
            piece,
            budget,
            (depth - 1) as nat,
            alpha,
            beta,
            maximizing,
        );
    } else {
        let start = (moves_of(pos)[0], if maximizing {
            -100000int
        } else {
            100000int
        });
        assert(moves_of(pos)[0] == start.0);
        lemma_scan_names_move(pos, piece, budget, depth, alpha, beta, maximizing, 0, start);
        lemma_generated_iff_legal(
            pos,
            alpha_beta_value(pos, piece, budget, depth, alpha, beta, maximizing).0,
        );
    }
}

/// The search looks one move ahead at least exactly when the node budget
/// is no less than the number of moves.
pub proof fn lemma_one_ply_needs_a_node_for_each_move(branching: nat, depth: nat, budget: nat)
    requires
        depth >= 1,
    ensures
        searched_depth(branching, depth, budget) >= 1 <==> branching <= budget,
    decreases depth,
{
    lemma_pow1(branching as int);
    assert(searched_depth(branching, 0, budget) == 0);
    if depth == 1 {
        assert(searched_depth(branching, 1, budget) == if branching > budget {
            0nat
        } else {
            1nat
        });
    } else if pow(branching as int, depth) > budget {
        lemma_one_ply_needs_a_node_for_each_move(branching, (depth - 1) as nat, budget);
    } else {
        assert(searched_depth(branching, depth, budget) == depth);
        if branching > 0 {
            lemma_pow_increases(branching, 1, depth);
        }
    }
}

/// For each move of `pos`, the minimax value of the position it leads to,
/// searched to `depth - 1` plies.
pub open spec fn reply_values(
    pos: Position,
    piece: Piece,
    budget: nat,
    depth: nat,
    maximizing: bool,
) -> Seq<int> {
    Seq::new(
        moves_of(pos).len(),
        |k: int|
            minimax(played(pos, moves_of(pos)[k]), piece, budget, (depth - 1) as nat, !maximizing),
    )
}

/// The minimax value of a position never leaves the range from the score
/// of a lost game to the score of a won game.
pub proof fn lemma_minimax_range(
    pos: Position,
    piece: Piece,
    budget: nat,
    depth: nat,
    maximizing: bool,
)
    ensures
        -100000 <= minimax(pos, piece, budget, depth, maximizing) <= 100000,
    decreases depth, 1 + moves_of(pos).len(),
{
    if game_over(pos) {
    } else if depth == 0 {
        lemma_evaluation_range(pos, piece);
    } else if pow(moves_of(pos).len() as int, depth) > budget {
        lemma_minimax_range(pos, piece, budget, (depth - 1) as nat, maximizing);
    } else {
        lemma_best_reply_range(pos, piece, budget, depth, maximizing, moves_of(pos).len());
    }
}

proof fn lemma_best_reply_range(
    pos: Position,
    piece: Piece,
    budget: nat,
    depth: nat,
    maximizing: bool,
    n: nat,
)
    ensures
        -100000 <= best_reply(pos, piece, budget, depth, maximizing, n) <= 100000,
    decreases depth, n,
{
    if n == 0 || depth == 0 || n > moves_of(pos).len() {
    } else {
        lemma_best_reply_range(pos, piece, budget, depth, maximizing, (n - 1) as nat);
        lemma_minimax_range(
            played(pos, moves_of(pos)[n - 1]),
            piece,
            budget,
            (depth - 1) as nat,
            !maximizing,
        );
    }
}

/// A search whose window spans from the score of a lost game to the score
/// of a won game reports the minimax value of the position.
pub proof fn lemma_full_window_is_exact(
    pos: Position,
    piece: Piece,
    budget: nat,
    depth: nat,
    maximizing: bool,
)
    ensures
        alpha_beta_value(pos, piece, budget, depth, -100000, 100000, maximizing).1 == minimax(
            pos,
            piece,
            budget,
            depth,
            maximizing,
        ),
{
    lemma_alpha_beta_sound(pos, piece, budget, depth, -100000, 100000, maximizing);
    lemma_minimax_range(pos, piece, budget, depth, maximizing);
}

proof fn lemma_scan_max_first_best(
    pos: Position,
    piece: Piece,
    budget: nat,
    depth: nat,
    alpha: int,
    i: nat,
    best: (FullMove, int),
    j: int,
) -> (w: int)
    requires
        depth > 0,
        0 < moves_of(pos).len(),
        i <= moves_of(pos).len(),
        -100000 <= alpha < 100000,
        alpha <= -100000 || alpha <= best.1,
        -100000 <= best.1 < 100000,
        forall|k: int| 0 <= k < i ==> reply_values(pos, piece, budget, depth, true)[k] <= best.1,
        best.1 == -100000 ==> best.0 == moves_of(pos)[0],
        best.1 > -100000 ==> 0 <= j < i && best.0 == moves_of(pos)[j] && reply_values(
            pos,
            piece,
            budget,
            depth,
            true,
        )[j] == best.1 && forall|k: int|
            0 <= k < j ==> reply_values(pos, piece, budget, depth, true)[k] < best.1,
    ensures
        is_first_greatest(reply_values(pos, piece, budget, depth, true), w),
        alpha_beta_scan(pos, piece, budget, depth, alpha, 100000, true, i, best) == (
            moves_of(pos)[w],
            reply_values(pos, piece, budget, depth, true)[w],
        ),
    decreases moves_of(pos).len() - i,
{
    let len = moves_of(pos).len();
    let values = reply_values(pos, piece, budget, depth, true);
    assert forall|k: int| 0 <= k < len implies -100000 <= #[trigger] values[k] <= 100000 by {
        lemma_minimax_range(played(pos, moves_of(pos)[k]), piece, budget, (depth - 1) as nat, false);
    }
    if i < len {
        let m = moves_of(pos)[i as int];
        let next = played(pos, m);
        lemma_alpha_beta_sound(next, piece, budget, (depth - 1) as nat, alpha, 100000, false);
        let reply = alpha_beta_value(next, piece, budget, (depth - 1) as nat, alpha, 100000, false).1;
        assert(values[i as int] == minimax(next, piece, budget, (depth - 1) as nat, false));
        let better = if reply > best.1 {
            (m, reply)
        } else {
            best
        };
        let at = if reply > best.1 {
            i as int
        } else {
            j
        };
        if reply >= 100000 {
            assert(values[i as int] == 100000);
            assert(reply == 100000);
            i as int
        } else {
            let raised = if reply > alpha {
                reply
            } else {
                alpha
            };
            assert forall|k: int| 0 <= k < i + 1 implies values[k] <= better.1 by {
                if k < i {
                    assert(values[k] <= best.1);
                }
            }
            lemma_scan_max_first_best(pos, piece, budget, depth, raised, i + 1, better, at)
        }
    } else if best.1 == -100000 {
        assert(values[0] == -100000);
        0
    } else {
        j
    }
}

/// While the game goes on, the search for the side to move names the first
/// of the moves whose reply has the greatest minimax value, and reports
/// that value, provided the node budget lets it look ahead to the depth
/// asked for.
pub proof fn lemma_alpha_beta_names_first_best_move(
    pos: Position,
    piece: Piece,
    budget: nat,
    depth: nat,
) -> (w: int)
    requires
        !game_over(pos),
        depth >= 1,
        pow(moves_of(pos).len() as int, depth) <= budget,
    ensures
        is_first_greatest(reply_values(pos, piece, budget, depth, true), w),
        alpha_beta_value(pos, piece, budget, depth, -100000, 100000, true) == (
            moves_of(pos)[w],
            reply_values(pos, piece, budget, depth, true)[w],
        ),
{
    lemma_scan_max_first_best(
        pos,
        piece,
        budget,
        depth,
        -100000,
        0,
        (moves_of(pos)[0], -100000),
        0,
    )
}

/// Where the search looks ahead at all, a tree of the depth searched has
/// no more leaves than the node budget allows.
pub proof fn lemma_searched_depth_fits(branching: nat, depth: nat, budget: nat)
    ensures
        searched_depth(branching, depth, budget) <= depth,
        searched_depth(branching, depth, budget) == 0 || pow(
            branching as int,
            searched_depth(branching, depth, budget),
        ) <= budget,
    decreases depth,
{
    if depth > 0 && pow(branching as int, depth) > budget {
        lemma_searched_depth_fits(branching, (depth - 1) as nat, budget);
    }
}

proof fn lemma_scan_range(
    pos: Position,
    piece: Piece,
    budget: nat,
    depth: nat,
    alpha: int,
    beta: int,
    maximizing: bool,
    i: nat,
    best: (FullMove, int),
)
    requires
        -100000 <= best.1 <= 100000,
    ensures
        -100000 <= alpha_beta_scan(pos, piece, budget, depth, alpha, beta, maximizing, i, best).1
            <= 100000,
    decreases depth, moves_of(pos).len() - i,
{
    if i < moves_of(pos).len() && depth > 0 {
        let m = moves_of(pos)[i as int];
        let next = played(pos, m);
        lemma_alpha_beta_range(next, piece, budget, (depth - 1) as nat, alpha, beta, !maximizing);
        let reply = alpha_beta_value(
            next,
            piece,
            budget,
            (depth - 1) as nat,
            alpha,
            beta,
            !maximizing,
        ).1;
        if maximizing {
            let better = if reply > best.1 {
                (m, reply)
            } else {
                best
            };
            let raised = if reply > alpha {
                reply
            } else {
                alpha
            };
            lemma_scan_range(pos, piece, budget, depth, raised, beta, maximizing, i + 1, better);
        } else {
            let better = if reply < best.1 {
                (m, reply)
            } else {
                best
            };
            let lowered = if reply < beta {
                reply
            } else {
                beta
            };
            lemma_scan_range(pos, piece, budget, depth, alpha, lowered, maximizing, i + 1, better);
        }
    }
}

/// Whatever the window, the score of a search never leaves the range from
/// the score of a lost game to the score of a won game.
pub proof fn lemma_alpha_beta_range(
    pos: Position,
    piece: Piece,
    budget: nat,
    depth: nat,
    alpha: int,
    beta: int,
    maximizing: bool,
)
    ensures
        -100000 <= alpha_beta_value(pos, piece, budget, depth, alpha, beta, maximizing).1 <= 100000,
    decreases depth, 1 + moves_of(pos).len(),
{
    if game_over(pos) {
    } else if depth == 0 {
        lemma_evaluation_range(pos, piece);
    } else if pow(moves_of(pos).len() as int, depth) > budget {
        lemma_alpha_beta_range(pos, piece, budget, (depth - 1) as nat, alpha, beta, maximizing);
    } else {
        let start = (moves_of(pos)[0], if maximizing {
            -100000int
        } else {
            100000int
        });
        lemma_scan_range(pos, piece, budget, depth, alpha, beta, maximizing, 0, start);
    }
}

} // verus!
