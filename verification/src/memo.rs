//! Alpha-beta search with a memo: a position that was scored once for a
//! perspective is not searched again in the same search.

use vstd::prelude::*;
use vstd::arithmetic::power::pow;
use crate::agreement::lemma_memoized_score_is_plain_score;
use crate::alpha_beta::{
    alpha_beta_value, lemma_full_window_is_exact, lemma_one_ply_needs_a_node_for_each_move,
    minimax, searched_depth,
};
use crate::board::{turn_piece, turn_to_piece, FullMove, Game, Piece, Position};
use crate::bounds::lemma_evaluation_range;
use crate::cache::{Cache, GamePerspective, Memo};
use crate::evaluate::{evaluation, full_evaluation};
use crate::movegen::{find_possible_moves_side, lemma_full_moves_sound};
use crate::rules::{play_move, played, valid_full_move};
use crate::search::{
    exceeds_budget, moves_of, no_move, null_move, terminal_score, FullMoveEvaluation,
    SEARCH_DEPTH, WIN_SCORE,
};
use crate::terminal::{game_over, is_over, lemma_generated_iff_legal};

verus! {

/// The result of the memoized search of `pos`, and the memo after it.
///
/// The search goes as `alpha_beta_value` does, but each successor is looked
/// up in the memo first (`memo_lookup`). The position searched is itself
/// neither looked up nor remembered here.
pub open spec fn memo_value(
    memo: Memo,
    pos: Position,
    piece: Piece,
    budget: nat,
    depth: nat,
    alpha: int,
    beta: int,
    maximizing: bool,
) -> ((FullMove, int), Memo)
    decreases depth, 1 + moves_of(pos).len(),
{
    if game_over(pos) {
        ((null_move(), terminal_score(pos, piece)), memo)
    } else if depth == 0 {
        ((null_move(), evaluation(pos, piece)), memo)
    } else if pow(moves_of(pos).len() as int, depth) > budget {
        memo_value(memo, pos, piece, budget, (depth - 1) as nat, alpha, beta, maximizing)
    } else {
        memo_scan(
            memo,
            pos,
            piece,
            budget,
            depth,
            alpha,
            beta,
            maximizing,
            0,
            (
                moves_of(pos)[0],
                if maximizing {
                    -100000
                } else {
                    100000
                },
            ),
        )
    }
}

/// What the memo holds for `pos` in the eyes of `piece`, with the memo
/// unchanged; or, where it holds nothing, the result of the memoized search
/// of `pos`, with the memo after that search and the result added to it.
/// What is found in the memo is taken as it is, whatever the depth and the
/// window it was computed with.
pub open spec fn memo_lookup(
    memo: Memo,
    pos: Position,
    piece: Piece,
    budget: nat,
    depth: nat,
    alpha: int,
    beta: int,
    maximizing: bool,
) -> ((FullMove, int), Memo)
    decreases depth, 2 + moves_of(pos).len(),
{
    if memo.contains_key((pos, piece)) {
        (memo[(pos, piece)], memo)
    } else {
        let (found, after) = memo_value(memo, pos, piece, budget, depth, alpha, beta, maximizing);
        (found, after.insert((pos, piece), found))
    }
}

/// The result of the memoized search of `pos` once its first `i` moves
/// have been searched, and the memo after it.
pub open spec fn memo_scan(
    memo: Memo,
    pos: Position,
    piece: Piece,
    budget: nat,
    depth: nat,
    alpha: int,
    beta: int,
    maximizing: bool,
    i: nat,
    best: (FullMove, int),
) -> ((FullMove, int), Memo)
    decreases depth, moves_of(pos).len() - i,
{
    if i >= moves_of(pos).len() || depth == 0 {
        (best, memo)
    } else {
        let m = moves_of(pos)[i as int];
        let (found, after) = memo_lookup(
            memo,
            played(pos, m),
            piece,
            budget,
            (depth - 1) as nat,
            alpha,
            beta,
            !maximizing,
        );
        let reply = found.1;
        if maximizing {
            let better = if reply > best.1 {
                (m, reply)
            } else {
                best
            };
            if reply >= beta {
                (better, after)
            } else {
                memo_scan(
                    after,
                    pos,
                    piece,
                    budget,
                    depth,
                    if reply > alpha {
                        reply
                    } else {
                        alpha
                    },
                    beta,
                    maximizing,
                    i + 1,
                    better,
                )
            }
        } else {
            let better = if reply < best.1 {
                (m, reply)
            } else {
                best
            };
            if reply <= alpha {
                (better, after)
            } else {
                memo_scan(
                    after,
                    pos,
                    piece,
                    budget,
                    depth,
                    alpha,
                    if reply < beta {
                        reply
                    } else {
                        beta
                    },
                    maximizing,
                    i + 1,
                    better,
                )
            }
        }
    }
}

/// Answers from the memo where it knows the position and perspective, and
/// searches and remembers where it does not.
pub fn alpha_beta_hashmap_wrapper(
    evaluated: &mut Cache,
    max_count: usize,
    game_perspective: GamePerspective,
    depth: u8,
    alpha: i32,
    beta: i32,
    maximizing: bool,
) -> (result: FullMoveEvaluation)
    requires
        old(evaluated).wf(),
    ensures
        final(evaluated).wf(),
        ((result.full_move, result.score as int), final(evaluated)@) == memo_lookup(
            old(evaluated)@,
            game_perspective@.0,
            game_perspective@.1,
            max_count as nat,
            depth as nat,
            alpha as int,
            beta as int,
            maximizing,
        ),
    decreases depth, 1nat,
{
    match evaluated.get(&game_perspective) {
        Some(known) => known,
        None => {
            let evaluation = alpha_beta_hashmap(
                evaluated,
                max_count,
                game_perspective,
                depth,
                alpha,
                beta,
                maximizing,
            );
            evaluated.insert(game_perspective, evaluation);
            evaluation
        },
    }
}

/// Searches the position of `game_perspective` to `depth` plies inside the
/// window `(alpha, beta)`, with `evaluated` as the memo of the search.
pub fn alpha_beta_hashmap(
    evaluated: &mut Cache,
    max_count: usize,
    game_perspective: GamePerspective,
    depth: u8,
    alpha: i32,
    beta: i32,
    maximizing: bool,
) -> (result: FullMoveEvaluation)
    requires
        old(evaluated).wf(),
    ensures
        final(evaluated).wf(),
        ((result.full_move, result.score as int), final(evaluated)@) == memo_value(
            old(evaluated)@,
            game_perspective@.0,
            game_perspective@.1,
            max_count as nat,
            depth as nat,
            alpha as int,
            beta as int,
            maximizing,
        ),
    decreases depth, 0nat,
{
    let game = game_perspective.game;
    let piece = game_perspective.piece;
    let ghost target = memo_value(
        old(evaluated)@,
        game@,
        piece,
        max_count as nat,
        depth as nat,
        alpha as int,
        beta as int,
        maximizing,
    );
    let status = is_over(game);
    if status.over {
        if turn_to_piece(status.winner) == piece {
            return FullMoveEvaluation { full_move: no_move(), score: WIN_SCORE };
        } else {
            return FullMoveEvaluation { full_move: no_move(), score: -WIN_SCORE };
        }
    }
    let possible_moves = find_possible_moves_side(game, turn_to_piece(game.turn));
    let mut remaining: u8 = depth;
    while remaining > 0 && exceeds_budget(possible_moves.len(), remaining, max_count)
        invariant
            remaining <= depth,
            !game_over(game@),
            possible_moves@ == moves_of(game@),
            evaluated@ == old(evaluated)@,
            evaluated.wf(),
            target == memo_value(
                evaluated@,
                game@,
                piece,
                max_count as nat,
                remaining as nat,
                alpha as int,
                beta as int,
                maximizing,
            ),
        decreases remaining,
    {
        remaining -= 1;
    }
    if remaining == 0 {
        return FullMoveEvaluation { full_move: no_move(), score: full_evaluation(game, piece) };
    }
    let mut best_move: FullMove = possible_moves[0];
    let mut best_score: i32 = if maximizing {
        -WIN_SCORE
    } else {
        WIN_SCORE
    };
    let mut low: i32 = alpha;
    let mut high: i32 = beta;
    let mut i: usize = 0;
    while i < possible_moves.len()
        invariant_except_break
            i <= possible_moves.len(),
            target == memo_scan(
                evaluated@,
                game@,
                piece,
                max_count as nat,
                remaining as nat,
                low as int,
                high as int,
                maximizing,
                i as nat,
                (best_move, best_score as int),
            ),
        invariant
            0 < remaining <= depth,
            possible_moves@ == moves_of(game@),
            evaluated.wf(),
        ensures
            target == ((best_move, best_score as int), evaluated@),
        decreases possible_moves.len() - i,
    {
        let move_ = possible_moves[i];
        proof {
            lemma_full_moves_sound(game@.squares, turn_piece(game@.turn), i as int);
        }
        let game_after_move = play_move(game, move_);
        let new_perspective = GamePerspective { game: game_after_move, piece: piece };
        let next_recursion = alpha_beta_hashmap_wrapper(
            evaluated,
            max_count,
            new_perspective,
            remaining - 1,
            low,
            high,
            !maximizing,
        );
        if maximizing {
            if next_recursion.score > best_score {
                best_score = next_recursion.score;
                best_move = move_;
            }
            if next_recursion.score >= high {
                break ;
            }
            if next_recursion.score > low {
                low = next_recursion.score;
            }
        } else {
            if next_recursion.score < best_score {
                best_score = next_recursion.score;
                best_move = move_;
            }
            if next_recursion.score <= low {
                break ;
            }
            if next_recursion.score < high {
                high = next_recursion.score;
            }
        }
        i += 1;
    }
    FullMoveEvaluation { full_move: best_move, score: best_score }
}

/// Chooses a move for the side to move, with its score, by memoized
/// alpha-beta search to at most `SEARCH_DEPTH` plies under the node budget
/// `max_count`. The memo is new for each call. Where the game is over the
/// move is `null_move`.
#[allow(non_snake_case)]
pub fn obstruction_AI_alpha_beta_hashmap(game: Game, max_count: usize) -> (result:
    FullMoveEvaluation)
    ensures
        (result.full_move, result.score as int) == memo_value(
            Map::empty(),
            game@,
            turn_piece(game@.turn),
            max_count as nat,
            4,
            -100000,
            100000,
            true,
        ).0,
        -100000 <= result.score <= 100000,
        valid_full_move(game@, result.full_move) <==> !game_over(game@) && moves_of(game@).len()
            <= max_count,
        searched_depth(moves_of(game@).len(), 4, max_count as nat) <= 2 ==> (
            result.full_move,
            result.score as int,
        ) == alpha_beta_value(
            game@,
            turn_piece(game@.turn),
            max_count as nat,
            4,
            -100000,
            100000,
            true,
        ) && result.score == minimax(game@, turn_piece(game@.turn), max_count as nat, 4, true),
{
    let mut evaluated = Cache::new();
    let piece: Piece = turn_to_piece(game.turn);
    proof {
        let budget = max_count as nat;
        lemma_memo_names_legal_move(Map::empty(), game@, piece, budget, 4, -100000, 100000, true);
        lemma_memo_range(Map::empty(), game@, piece, budget, 4, -100000, 100000, true);
        lemma_one_ply_needs_a_node_for_each_move(moves_of(game@).len(), 4, budget);
        if searched_depth(moves_of(game@).len(), 4, budget) <= 2 {
            lemma_memoized_score_is_plain_score(game@, piece, budget, 4, -100000, 100000, true);
            lemma_full_window_is_exact(game@, piece, budget, 4, true);
        }
    }
    let game_perspective = GamePerspective { game: game, piece: piece };
    alpha_beta_hashmap(
        &mut evaluated,
        max_count,
        game_perspective,
        SEARCH_DEPTH,
        -WIN_SCORE,
        WIN_SCORE,
        true,
    )
}

/// The result of a search of `pos` that looks no move ahead.
pub open spec fn static_result(pos: Position, piece: Piece) -> (FullMove, int) {
    if game_over(pos) {
        (null_move(), terminal_score(pos, piece))
    } else {
        (null_move(), evaluation(pos, piece))
    }
}

proof fn lemma_memo_scan_names_move(
    memo: Memo,
    pos: Position,
    piece: Piece,
    budget: nat,
    depth: nat,
    alpha: int,
    beta: int,
    maximizing: bool,
    i: nat,
    best: (FullMove, int),
)
    requires
        moves_of(pos).contains(best.0),
    ensures
        moves_of(pos).contains(
            memo_scan(memo, pos, piece, budget, depth, alpha, beta, maximizing, i, best).0.0,
        ),
    decreases moves_of(pos).len() - i,
{
    if i < moves_of(pos).len() && depth > 0 {
        let m = moves_of(pos)[i as int];
        let (found, after) = memo_lookup(
            memo,
            played(pos, m),
            piece,
            budget,
            (depth - 1) as nat,
            alpha,
            beta,
            !maximizing,
        );
        let reply = found.1;
        if maximizing {
            let better = if reply > best.1 {
                (m, reply)
            } else {
                best
            };
            let raised = if reply > alpha {
                reply
            } else {
                alpha
            };
            lemma_memo_scan_names_move(after, pos, piece, budget, depth, raised, beta, maximizing, i + 1, better);
        } else {
            let better = if reply < best.1 {
                (m, reply)
            } else {
                best
            };
            let lowered = if reply < beta {
                reply
            } else {
                beta
            };
            lemma_memo_scan_names_move(after, pos, piece, budget, depth, alpha, lowered, maximizing, i + 1, better);
        }
    }
}

/// While the game goes on, a memoized search that the node budget lets
/// look one move ahead at least names a legal move, whatever the memo
/// holds. A search that looks no move ahead, or finds the game over, names
/// `null_move`, which is no legal move.
pub proof fn lemma_memo_names_legal_move(
    memo: Memo,
    pos: Position,
    piece: Piece,
    budget: nat,
    depth: nat,
    alpha: int,
    beta: int,
    maximizing: bool,
)
    ensures
        valid_full_move(
            pos,
            memo_value(memo, pos, piece, budget, depth, alpha, beta, maximizing).0.0,
        ) <==> !game_over(pos) && searched_depth(moves_of(pos).len(), depth, budget) >= 1,
    decreases depth,
{
    if game_over(pos) || depth == 0 {
    } else if pow(moves_of(pos).len() as int, depth) > budget {
        lemma_memo_names_legal_move(
            memo,
            pos,
            piece,
            budget,
            (depth - 1) as nat,
            alpha,
            beta,
            maximizing,
        );
    } else {
        let start = (moves_of(pos)[0], if maximizing {
            -100000int
        } else {
            100000int
        });
        assert(moves_of(pos)[0] == start.0);
        lemma_memo_scan_names_move(memo, pos, piece, budget, depth, alpha, beta, maximizing, 0, start);
        lemma_generated_iff_legal(
            pos,
            memo_value(memo, pos, piece, budget, depth, alpha, beta, maximizing).0.0,
        );
    }
}

/// No score that the memo holds leaves the range from the score of a lost
/// game to the score of a won game.
pub open spec fn holds_scores_in_range(memo: Memo) -> bool {
    forall|k: (Position, Piece)| memo.contains_key(k) ==> -100000 <= (#[trigger] memo[k]).1 <= 100000
}

/// The score of a memoized search stays in the range from the score of a
/// lost game to the score of a won game, and so do the scores that it
/// leaves in the memo, provided that those it finds there do.
pub proof fn lemma_memo_range(
    memo: Memo,
    pos: Position,
    piece: Piece,
    budget: nat,
    depth: nat,
    alpha: int,
    beta: int,
    maximizing: bool,
)
    requires
        holds_scores_in_range(memo),
    ensures
        -100000 <= memo_value(memo, pos, piece, budget, depth, alpha, beta, maximizing).0.1
            <= 100000,
        holds_scores_in_range(
            memo_value(memo, pos, piece, budget, depth, alpha, beta, maximizing).1,
        ),
    decreases depth, 1 + moves_of(pos).len(),
{
    if game_over(pos) {
    } else if depth == 0 {
        lemma_evaluation_range(pos, piece);
    } else if pow(moves_of(pos).len() as int, depth) > budget {
        lemma_memo_range(memo, pos, piece, budget, (depth - 1) as nat, alpha, beta, maximizing);
    } else {
        let start = (moves_of(pos)[0], if maximizing {
            -100000int
        } else {
            100000int
        });
        lemma_memo_scan_range(memo, pos, piece, budget, depth, alpha, beta, maximizing, 0, start);
    }
}

proof fn lemma_memo_lookup_range(
    memo: Memo,
    pos: Position,
    piece: Piece,
    budget: nat,
    depth: nat,
    alpha: int,
    beta: int,
    maximizing: bool,
)
    requires
        holds_scores_in_range(memo),
    ensures
        -100000 <= memo_lookup(memo, pos, piece, budget, depth, alpha, beta, maximizing).0.1
            <= 100000,
        holds_scores_in_range(
            memo_lookup(memo, pos, piece, budget, depth, alpha, beta, maximizing).1,
        ),
    decreases depth, 2 + moves_of(pos).len(),
{
    if !memo.contains_key((pos, piece)) {
        lemma_memo_range(memo, pos, piece, budget, depth, alpha, beta, maximizing);
    }
}

proof fn lemma_memo_scan_range(
    memo: Memo,
    pos: Position,
    piece: Piece,
    budget: nat,
    depth: nat,
    alpha: int,
    beta: int,
    maximizing: bool,
    i: nat,
    best: (FullMove, int),
)
    requires
        holds_scores_in_range(memo),
        -100000 <= best.1 <= 100000,
    ensures
        -100000 <= memo_scan(memo, pos, piece, budget, depth, alpha, beta, maximizing, i, best).0.1
            <= 100000,
        holds_scores_in_range(
            memo_scan(memo, pos, piece, budget, depth, alpha, beta, maximizing, i, best).1,
        ),
    decreases depth, moves_of(pos).len() - i,
{
    if i < moves_of(pos).len() && depth > 0 {
        let m = moves_of(pos)[i as int];
        let next = played(pos, m);
        lemma_memo_lookup_range(memo, next, piece, budget, (depth - 1) as nat, alpha, beta, !maximizing);
        let (found, after) = memo_lookup(
            memo,
            next,
            piece,
            budget,
            (depth - 1) as nat,
            alpha,
            beta,
            !maximizing,
        );
        let reply = found.1;
        if maximizing {
            let better = if reply > best.1 {
                (m, reply)
            } else {
                best
            };
            let raised = if reply > alpha {
                reply
            } else {
                alpha
            };
            lemma_memo_scan_range(after, pos, piece, budget, depth, raised, beta, maximizing, i + 1, better);
        } else {
            let better = if reply < best.1 {
                (m, reply)
            } else {
                best
            };
            let lowered = if reply < beta {
                reply
            } else {
                beta
            };
            lemma_memo_scan_range(after, pos, piece, budget, depth, alpha, lowered, maximizing, i + 1, better);
        }
    }
}

} // verus!
