//! Budget-splitting best-first search: the moves of a position are ranked
//! by their static score, and each is searched with a share of the node
//! budget of the position.

use vstd::prelude::*;
use crate::board::{turn_piece, turn_to_piece, FullMove, Game, Piece, Position};
use crate::bounds::{lemma_evaluation_range, lemma_mobility_limit};
use crate::evaluate::{evaluation, full_evaluation};
use crate::movegen::{find_possible_moves_side, lemma_full_moves_sound};
use crate::rules::{play_move, played, valid_full_move};
use crate::search::{
    is_first_greatest, moves_of, no_move, null_move, terminal_score, FullMoveEvaluation,
    WIN_SCORE,
};
use crate::terminal::{game_over, is_over, lemma_generated_iff_legal};

verus! {

/// A full move with the position it leads to and the static score of that
/// position for the side that makes the move.
#[derive(Copy, Clone, Debug)]
pub struct EvaluatedFullMove {
    pub full_move: FullMove,
    pub game_after: Game,
    pub score: i32,
}

/// Number of entries at the head of `ranked`, from position `k` on, whose
/// score is at least `score`.
pub open spec fn rank_from(ranked: Seq<(FullMove, int)>, score: int, k: nat) -> nat
    decreases ranked.len() - k,
{
    if k < ranked.len() && ranked[k as int].1 >= score {
        rank_from(ranked, score, k + 1)
    } else {
        k
    }
}

/// The first `n` moves of `pos`, each with the static score of the position
/// it leads to for the side to move in `pos`, in descending order of score;
/// moves of equal score stand in the order of generation.
pub open spec fn ranked_moves(pos: Position, n: nat) -> Seq<(FullMove, int)>
    decreases n,
{
    if n == 0 {
        Seq::empty()
    } else {
        let ranked = ranked_moves(pos, (n - 1) as nat);
        let m = moves_of(pos)[n - 1];
        let score = evaluation(played(pos, m), turn_piece(pos.turn));
        ranked.insert(rank_from(ranked, score, 0) as int, (m, score))
    }
}

/// All moves of `pos`, best static score first.
pub open spec fn candidates(pos: Position) -> Seq<(FullMove, int)> {
    ranked_moves(pos, moves_of(pos).len())
}

/// By how much the divisor of the budget grows from one move to the next:
/// the more moves there are, the faster the shares shrink.
pub open spec fn step_size(moves: nat) -> nat {
    if moves > 500 {
        2
    } else if moves > 100 {
        1
    } else {
        0
    }
}

/// The divisor that gives the `i`-th ranked move its share of the budget:
/// 5 for the first, and `step_size` more for each move after it.
pub open spec fn divisor(moves: nat, i: nat) -> nat {
    if step_size(moves) == 2 {
        5 + 2 * i
    } else if step_size(moves) == 1 {
        5 + i
    } else {
        5
    }
}

/// The result of the best-first search of `pos` with the node budget
/// `allotment`: a move and its score for `piece`.
///
/// A position in which the game is over scores `terminal_score` and names
/// `null_move`. A budget no greater than the number of moves buys no
/// search: the result is the move of best static score, with the
/// `evaluation` of `pos` itself. Otherwise the ranked moves are searched in
/// turn as `best_first_scan` says.
pub open spec fn best_first_value(
    pos: Position,
    piece: Piece,
    allotment: nat,
    alpha: int,
    beta: int,
    maximizing: bool,
) -> (FullMove, int)
    decreases allotment, 1 + moves_of(pos).len(),
{
    if game_over(pos) {
        (null_move(), terminal_score(pos, piece))
    } else if allotment <= moves_of(pos).len() {
        (candidates(pos)[0].0, evaluation(pos, piece))
    } else {
        best_first_scan(
            pos,
            piece,
            allotment,
            alpha,
            beta,
            maximizing,
            0,
            0,
            (
                candidates(pos)[0].0,
                if maximizing {
                    -100000
                } else {
                    100000
                },
            ),
        )
    }
}

/// The result of the best-first search of `pos` once its `i` best-ranked
/// moves have been searched and `spent` of the budget has been given out.
///
/// The next move gets the share `allotment / divisor`. The search of the
/// position ends when that share is zero or takes the budget given out
/// beyond `allotment`, when the moves are exhausted, or with the first move
/// whose score reaches the far bound of the window `(alpha, beta)`.
pub open spec fn best_first_scan(
    pos: Position,
    piece: Piece,
    allotment: nat,
    alpha: int,
    beta: int,
    maximizing: bool,
    i: nat,
    spent: nat,
    best: (FullMove, int),
) -> (FullMove, int)
    decreases allotment, moves_of(pos).len() - i,
{
    let share = allotment / divisor(moves_of(pos).len(), i);
    if i >= moves_of(pos).len() || share == 0 || spent + share > allotment {
        best
    } else {
        let m = candidates(pos)[i as int].0;
        proof {
            let k = divisor(moves_of(pos).len(), i);
            assert(allotment / k < allotment) by (nonlinear_arith)
                requires
                    k >= 5,
                    allotment / k > 0,
            ;
        }
        let reply = best_first_value(played(pos, m), piece, share, alpha, beta, !maximizing).1;
        if maximizing {
            let better = if reply > best.1 {
                (m, reply)
            } else {
                best
            };
            if reply >= beta {
                better
            } else {
                best_first_scan(
                    pos,
                    piece,
                    allotment,
                    if reply > alpha {
                        reply
                    } else {
                        alpha
                    },
                    beta,
                    maximizing,
                    i + 1,
                    spent + share,
                    better,
                )
            }
        } else {
            let better = if reply < best.1 {
                (m, reply)
            } else {
                best
            };
            if reply <= alpha {
                better
            } else {
                best_first_scan(
                    pos,
                    piece,
                    allotment,
                    alpha,
                    if reply < beta {
                        reply
                    } else {
                        beta
                    },
                    maximizing,
                    i + 1,
                    spent + share,
                    better,
                )
            }
        }
    }
}

/// The moves and scores of a list of evaluated moves.
pub open spec fn entries(list: Seq<EvaluatedFullMove>) -> Seq<(FullMove, int)> {
    Seq::new(list.len(), |j: int| (list[j].full_move, list[j].score as int))
}

/// Each entry of `list` holds the position that its move leads to from `pos`.
pub open spec fn leads_from(pos: Position, list: Seq<EvaluatedFullMove>) -> bool {
    forall|j: int| 0 <= j < list.len() ==> (#[trigger] list[j]).game_after@ == played(pos, list[j].full_move)
}

/// Scores every move of `game` by the static evaluation of the position it
/// leads to, for the side to move in `game`, and ranks the moves by that
/// score, best first; moves of equal score keep their order.
pub fn rank_moves(game: Game, possible_moves: &Vec<FullMove>) -> (ranked: Vec<EvaluatedFullMove>)
    requires
        possible_moves@ == moves_of(game@),
    ensures
        entries(ranked@) == candidates(game@),
        is_descending(entries(ranked@)),
        leads_from(game@, ranked@),
        ranked@.len() == possible_moves@.len(),
{
    proof {
        lemma_ranked_descending(game@, moves_of(game@).len());
    }
    let turn_piece: Piece = turn_to_piece(game.turn);
    let mut ranked: Vec<EvaluatedFullMove> = Vec::new();
    let mut n: usize = 0;
    assert(entries(ranked@) =~= ranked_moves(game@, 0));
    while n < possible_moves.len()
        invariant
            n <= possible_moves.len(),
            possible_moves@ == moves_of(game@),
            turn_piece == crate::board::turn_piece(game@.turn),
            entries(ranked@) == ranked_moves(game@, n as nat),
            leads_from(game@, ranked@),
            ranked@.len() == n,
        decreases possible_moves.len() - n,
    {
        let full_move = possible_moves[n];
        proof {
            lemma_full_moves_sound(game@.squares, turn_piece, n as int);
        }
        let game_after_move = play_move(game, full_move);
        let score: i32 = full_evaluation(game_after_move, turn_piece);
        let ghost before = ranked@;
        let mut p: usize = 0;
        while p < ranked.len() && ranked[p].score >= score
            invariant
                p <= ranked.len(),
                ranked@ == before,
                rank_from(entries(before), score as int, 0) == rank_from(
                    entries(before),
                    score as int,
                    p as nat,
                ),
            decreases ranked.len() - p,
        {
            p += 1;
        }
        let entry = EvaluatedFullMove {
            full_move: full_move,
            game_after: game_after_move,
            score: score,
        };
        ranked.insert(p, entry);
        n += 1;
        proof {
            assert(entries(ranked@) =~= entries(before).insert(
                p as int,
                (full_move, score as int),
            ));
            assert forall|j: int| 0 <= j < ranked@.len() implies (#[trigger] ranked@[j]).game_after@
                == played(game@, ranked@[j].full_move) by {
                if j < p {
                    assert(ranked@[j] == before[j]);
                } else if j > p {
                    assert(ranked@[j] == before[j - 1]);
                }
            }
        }
    }
    ranked
}

/// Searches `game` for `piece` with the node budget `alloted_count`, inside
/// the window `(alpha, beta)`, and returns the move found with its score.
pub fn monte_carlo(
    game: Game,
    piece: Piece,
    alloted_count: usize,
    alpha: i32,
    beta: i32,
    maximizing: bool,
) -> (result: FullMoveEvaluation)
    ensures
        (result.full_move, result.score as int) == best_first_value(
            game@,
            piece,
            alloted_count as nat,
            alpha as int,
            beta as int,
            maximizing,
        ),
        -100000 <= result.score <= 100000,
    decreases alloted_count,
{
    proof {
        lemma_best_first_range(
            game@,
            piece,
            alloted_count as nat,
            alpha as int,
            beta as int,
            maximizing,
        );
    }
    let ghost target = best_first_value(
        game@,
        piece,
        alloted_count as nat,
        alpha as int,
        beta as int,
        maximizing,
    );
    let status = is_over(game);
    if status.over {
        if turn_to_piece(status.winner) == piece {
            return FullMoveEvaluation { full_move: no_move(), score: WIN_SCORE };
        } else {
            return FullMoveEvaluation { full_move: no_move(), score: -WIN_SCORE };
        }
    }
    let possible_moves = find_possible_moves_side(game, turn_to_piece(game.turn));
    let evaluated_possible_moves = rank_moves(game, &possible_moves);
    proof {
        lemma_mobility_limit(game@.squares, turn_piece(game@.turn));
    }
    let count: usize = evaluated_possible_moves.len();
    if alloted_count <= count {
        return FullMoveEvaluation {
            full_move: evaluated_possible_moves[0].full_move,
            score: full_evaluation(game, piece),
        };
    }
    let step: usize = if count > 500 {
        2
    } else if count > 100 {
        1
    } else {
        0
    };
    let mut k: usize = 5;
    let mut count_sum: usize = 0;
    let mut best_move: FullMove = evaluated_possible_moves[0].full_move;
    let mut best_score: i32 = if maximizing {
        -WIN_SCORE
    } else {
        WIN_SCORE
    };
    let mut low: i32 = alpha;
    let mut high: i32 = beta;
    let mut i: usize = 0;
    while i < count
        invariant_except_break
            i <= count,
            k == divisor(count as nat, i as nat),
            count_sum <= alloted_count,
            target == best_first_scan(
                game@,
                piece,
                alloted_count as nat,
                low as int,
                high as int,
                maximizing,
                i as nat,
                count_sum as nat,
                (best_move, best_score as int),
            ),
        invariant
            count == moves_of(game@).len(),
            count <= 79625,
            step == step_size(count as nat),
            evaluated_possible_moves@.len() == count,
            entries(evaluated_possible_moves@) == candidates(game@),
            leads_from(game@, evaluated_possible_moves@),
        ensures
            target == (best_move, best_score as int),
        decreases count - i,
    {
        let new_count: usize = alloted_count / k;
        if new_count == 0 || new_count > alloted_count - count_sum {
            break ;
        }
        count_sum = count_sum + new_count;
        proof {
            assert(new_count < alloted_count) by (nonlinear_arith)
                requires
                    new_count == alloted_count as int / k as int,
                    k >= 5,
                    new_count > 0,
            ;
        }
        let candidate = evaluated_possible_moves[i];
        assert(entries(evaluated_possible_moves@)[i as int] == (
            candidate.full_move,
            candidate.score as int,
        ));
        let next_recursion = monte_carlo(
            candidate.game_after,
            piece,
            new_count,
            low,
            high,
            !maximizing,
        );
        if maximizing {
            if next_recursion.score > best_score {
                best_score = next_recursion.score;
                best_move = candidate.full_move;
            }
            if next_recursion.score >= high {
                break ;
            }
            if next_recursion.score > low {
                low = next_recursion.score;
            }
        } else {
            if next_recursion.score < best_score {
                best_score = next_recursion.score;
                best_move = candidate.full_move;
            }
            if next_recursion.score <= low {
                break ;
            }
            if next_recursion.score < high {
                high = next_recursion.score;
            }
        }
        k = k + step;
        i += 1;
    }
    FullMoveEvaluation { full_move: best_move, score: best_score }
}

/// Chooses a move for the side to move by best-first search under the node
/// budget `max_count`. Where the game is over the result is `null_move`.
#[allow(non_snake_case)]
pub fn obstruction_AI_monte_carlo(game: Game, max_count: usize) -> (best: FullMove)
    ensures
        best == best_first_value(
            game@,
            turn_piece(game@.turn),
            max_count as nat,
            -100000,
            100000,
            true,
        ).0,
        game_over(game@) ==> best == null_move(),
        !game_over(game@) ==> valid_full_move(game@, best),
        !game_over(game@) && max_count <= moves_of(game@).len() ==> exists|j: int|
            is_first_greatest(static_scores(game@), j) && best == moves_of(game@)[j],
{
    let piece: Piece = turn_to_piece(game.turn);
    proof {
        if !game_over(game@) {
            lemma_best_first_names_legal_move(
                game@,
                piece,
                max_count as nat,
                -100000,
                100000,
                true,
            );
            if max_count <= moves_of(game@).len() {
                let j = lemma_best_first_without_budget(
                    game@,
                    piece,
                    max_count as nat,
                    -100000,
                    100000,
                    true,
                );
            }
        }
    }
    let full_move_evaluation = monte_carlo(game, piece, max_count, -WIN_SCORE, WIN_SCORE, true);
    full_move_evaluation.full_move
}

/// The ranking keeps the moves: it holds as many entries as moves were
/// ranked, and each entry is one of them.
pub proof fn lemma_ranked_are_moves(pos: Position, n: nat, j: int)
    requires
        n <= moves_of(pos).len(),
        0 <= j < n,
    ensures
        ranked_moves(pos, n).len() == n,
        moves_of(pos).contains(ranked_moves(pos, n)[j].0),
    decreases n,
{
    lemma_ranked_len(pos, n);
    let ranked = ranked_moves(pos, (n - 1) as nat);
    lemma_ranked_len(pos, (n - 1) as nat);
    let m = moves_of(pos)[n - 1];
    let score = evaluation(played(pos, m), turn_piece(pos.turn));
    let at = rank_from(ranked, score, 0) as int;
    lemma_rank_from_range(ranked, score, 0);
    if j < at {
        lemma_ranked_are_moves(pos, (n - 1) as nat, j);
    } else if j > at {
        lemma_ranked_are_moves(pos, (n - 1) as nat, j - 1);
    } else {
        assert(moves_of(pos)[n - 1] == m);
    }
}

proof fn lemma_rank_from_range(ranked: Seq<(FullMove, int)>, score: int, k: nat)
    requires
        k <= ranked.len(),
    ensures
        k <= rank_from(ranked, score, k) <= ranked.len(),
    decreases ranked.len() - k,
{
    if k < ranked.len() && ranked[k as int].1 >= score {
        lemma_rank_from_range(ranked, score, k + 1);
    }
}

proof fn lemma_ranked_len(pos: Position, n: nat)
    ensures
        ranked_moves(pos, n).len() == n,
    decreases n,
{
    if n > 0 {
        lemma_ranked_len(pos, (n - 1) as nat);
        let ranked = ranked_moves(pos, (n - 1) as nat);
        let m = moves_of(pos)[n - 1];
        let score = evaluation(played(pos, m), turn_piece(pos.turn));
        lemma_rank_from_range(ranked, score, 0);
    }
}

proof fn lemma_best_first_scan_names_move(
    pos: Position,
    piece: Piece,
    allotment: nat,
    alpha: int,
    beta: int,
    maximizing: bool,
    i: nat,
    spent: nat,
    best: (FullMove, int),
)
    requires
        moves_of(pos).contains(best.0),
    ensures
        moves_of(pos).contains(
            best_first_scan(pos, piece, allotment, alpha, beta, maximizing, i, spent, best).0,
        ),
    decreases moves_of(pos).len() - i,
{
    let len = moves_of(pos).len();
    let share = allotment / divisor(len, i);
    if !(i >= len || share == 0 || spent + share > allotment) {
        lemma_ranked_are_moves(pos, len, i as int);
        let m = candidates(pos)[i as int].0;
        let reply = best_first_value(played(pos, m), piece, share, alpha, beta, !maximizing).1;
        if maximizing {
            let better = if reply > best.1 {
                (m, reply)
            } else {
                best
            };
            let raised = if reply > alpha {
                reply
            } else {
                alpha
            };
            lemma_best_first_scan_names_move(pos, piece, allotment, raised, beta, maximizing, i + 1, spent + share, better);
        } else {
            let better = if reply < best.1 {
                (m, reply)
            } else {
                best
            };
            let lowered = if reply < beta {
                reply
            } else {
                beta
            };
            lemma_best_first_scan_names_move(pos, piece, allotment, alpha, lowered, maximizing, i + 1, spent + share, better);
        }
    }
}

/// While the game goes on, the best-first search names a legal move,
/// whatever its budget.
pub proof fn lemma_best_first_names_legal_move(
    pos: Position,
    piece: Piece,
    allotment: nat,
    alpha: int,
    beta: int,
    maximizing: bool,
)
    requires
        !game_over(pos),
    ensures
        valid_full_move(
            pos,
            best_first_value(pos, piece, allotment, alpha, beta, maximizing).0,
        ),
{
    let len = moves_of(pos).len();
    lemma_ranked_are_moves(pos, len, 0);
    let start = (candidates(pos)[0].0, if maximizing {
        -100000int
    } else {
        100000int
    });
    lemma_best_first_scan_names_move(pos, piece, allotment, alpha, beta, maximizing, 0, 0, start);
    lemma_generated_iff_legal(
        pos,
        best_first_value(pos, piece, allotment, alpha, beta, maximizing).0,
    );
}

/// The scores of `ranked` never rise from one entry to the next.
pub open spec fn is_descending(ranked: Seq<(FullMove, int)>) -> bool {
    forall|a: int, b: int| 0 <= a <= b < ranked.len() ==> ranked[a].1 >= ranked[b].1
}

proof fn lemma_rank_from_splits(ranked: Seq<(FullMove, int)>, score: int, k: nat, t: int)
    requires
        k <= ranked.len(),
        k <= t < ranked.len(),
        is_descending(ranked),
    ensures
        t < rank_from(ranked, score, k) ==> ranked[t].1 >= score,
        t >= rank_from(ranked, score, k) ==> ranked[t].1 < score,
    decreases ranked.len() - k,
{
    if k < ranked.len() && ranked[k as int].1 >= score {
        lemma_rank_from_range(ranked, score, k + 1);
        if t > k {
            lemma_rank_from_splits(ranked, score, k + 1, t);
        }
    } else {
        assert(ranked[k as int].1 >= ranked[t].1);
    }
}

/// The ranked moves stand in descending order of score.
pub proof fn lemma_ranked_descending(pos: Position, n: nat)
    requires
        n <= moves_of(pos).len(),
    ensures
        is_descending(ranked_moves(pos, n)),
    decreases n,
{
    if n > 0 {
        lemma_ranked_descending(pos, (n - 1) as nat);
        lemma_ranked_len(pos, (n - 1) as nat);
        let ranked = ranked_moves(pos, (n - 1) as nat);
        let m = moves_of(pos)[n - 1];
        let score = evaluation(played(pos, m), turn_piece(pos.turn));
        let at = rank_from(ranked, score, 0) as int;
        lemma_rank_from_range(ranked, score, 0);
        let after = ranked_moves(pos, n);
        assert forall|a: int, b: int| 0 <= a <= b < after.len() implies after[a].1
            >= after[b].1 by {
            if a < at {
                lemma_rank_from_splits(ranked, score, 0, a);
            }
            if a > at {
                lemma_rank_from_splits(ranked, score, 0, a - 1);
            }
            if b < at {
                lemma_rank_from_splits(ranked, score, 0, b);
            }
            if b > at {
                lemma_rank_from_splits(ranked, score, 0, b - 1);
            }
        }
    }
}

/// For each move of `pos`, the static score of the position it leads to,
/// for the side to move in `pos`.
pub open spec fn static_scores(pos: Position) -> Seq<int> {
    Seq::new(
        moves_of(pos).len(),
        |i: int| evaluation(played(pos, moves_of(pos)[i]), turn_piece(pos.turn)),
    )
}

/// The best-ranked of the first `n` moves is the first of them whose
/// static score is the greatest.
pub proof fn lemma_top_candidate(pos: Position, n: nat) -> (j: int)
    requires
        0 < n <= moves_of(pos).len(),
    ensures
        is_first_greatest(static_scores(pos).take(n as int), j),
        ranked_moves(pos, n)[0] == (moves_of(pos)[j], static_scores(pos)[j]),
    decreases n,
{
    let scores = static_scores(pos);
    let m = moves_of(pos)[n - 1];
    let score = evaluation(played(pos, m), turn_piece(pos.turn));
    assert(scores[n - 1] == score);
    let ranked = ranked_moves(pos, (n - 1) as nat);
    lemma_ranked_len(pos, (n - 1) as nat);
    lemma_rank_from_range(ranked, score, 0);
    if n == 1 {
        0
    } else {
        let j = lemma_top_candidate(pos, (n - 1) as nat);
        let before = scores.take(n - 1);
        let now = scores.take(n as int);
        assert forall|k: int| 0 <= k < n - 1 implies #[trigger] now[k] == before[k] by {}
        if ranked[0].1 >= score {
            lemma_rank_from_range(ranked, score, 1);
            assert(rank_from(ranked, score, 0) >= 1);
            assert forall|k: int| 0 <= k < now.len() implies #[trigger] now[k] <= now[j] by {
                if k < n - 1 {
                    assert(before[k] <= before[j]);
                }
            }
            assert forall|k: int| 0 <= k < j implies #[trigger] now[k] < now[j] by {
                assert(before[k] < before[j]);
            }
            j
        } else {
            assert(rank_from(ranked, score, 0) == 0);
            assert forall|k: int| 0 <= k < n - 1 implies #[trigger] now[k] < now[n - 1] by {
                assert(before[k] <= before[j]);
            }
            n - 1
        }
    }
}

/// A budget no greater than the number of moves buys no search: the move
/// named is the first of the moves whose static score is the greatest, and
/// the score reported is the evaluation of the position itself.
pub proof fn lemma_best_first_without_budget(
    pos: Position,
    piece: Piece,
    allotment: nat,
    alpha: int,
    beta: int,
    maximizing: bool,
) -> (j: int)
    requires
        !game_over(pos),
        allotment <= moves_of(pos).len(),
    ensures
        is_first_greatest(static_scores(pos), j),
        best_first_value(pos, piece, allotment, alpha, beta, maximizing) == (
            moves_of(pos)[j],
            evaluation(pos, piece),
        ),
{
    let j = lemma_top_candidate(pos, moves_of(pos).len());
    assert(static_scores(pos).take(moves_of(pos).len() as int) =~= static_scores(pos));
    j
}

proof fn lemma_best_first_scan_range(
    pos: Position,
    piece: Piece,
    allotment: nat,
    alpha: int,
    beta: int,
    maximizing: bool,
    i: nat,
    spent: nat,
    best: (FullMove, int),
)
    requires
        -100000 <= best.1 <= 100000,
    ensures
        -100000 <= best_first_scan(pos, piece, allotment, alpha, beta, maximizing, i, spent, best).1
            <= 100000,
    decreases allotment, moves_of(pos).len() - i,
{
    let len = moves_of(pos).len();
    let share = allotment / divisor(len, i);
    if !(i >= len || share == 0 || spent + share > allotment) {
        let k = divisor(len, i);
        assert(allotment / k < allotment) by (nonlinear_arith)
            requires
                k >= 5,
                allotment / k > 0,
        ;
        let m = candidates(pos)[i as int].0;
        lemma_best_first_range(played(pos, m), piece, share, alpha, beta, !maximizing);
        let reply = best_first_value(played(pos, m), piece, share, alpha, beta, !maximizing).1;
        if maximizing {
            let better = if reply > best.1 {
                (m, reply)
            } else {
                best
            };
            let raised = if reply > alpha {
                reply
            } else {
                alpha
            };
            lemma_best_first_scan_range(pos, piece, allotment, raised, beta, maximizing, i + 1, spent + share, better);
        } else {
            let better = if reply < best.1 {
                (m, reply)
            } else {
                best
            };
            let lowered = if reply < beta {
                reply
            } else {
                beta
            };
            lemma_best_first_scan_range(pos, piece, allotment, alpha, lowered, maximizing, i + 1, spent + share, better);
        }
    }
}

/// The score of a best-first search never leaves the range from the score
/// of a lost game to the score of a won game.
pub proof fn lemma_best_first_range(
    pos: Position,
    piece: Piece,
    allotment: nat,
    alpha: int,
    beta: int,
    maximizing: bool,
)
    ensures
        -100000 <= best_first_value(pos, piece, allotment, alpha, beta, maximizing).1 <= 100000,
    decreases allotment, 1 + moves_of(pos).len(),
{
    if game_over(pos) {
    } else if allotment <= moves_of(pos).len() {
        lemma_evaluation_range(pos, piece);
    } else {
        let start = (candidates(pos)[0].0, if maximizing {
            -100000int
        } else {
            100000int
        });
        lemma_best_first_scan_range(pos, piece, allotment, alpha, beta, maximizing, 0, 0, start);
    }
}

} // verus!
