//! Why the scores of won and lost games lie beyond every evaluation: the
//! bounds on mobility, on distances and on area control.

use vstd::prelude::*;
use vstd::set_lib::{lemma_int_range, lemma_len_subset, set_int_range};
use crate::board::{moved_board, opposite, turn_piece, Coordinate, Piece, Position};
use crate::evaluate::{area_control_before, evaluation};
use crate::flood::{hop, hop_distance, is_least_hops, reachable_within};
use crate::distinct::{lemma_slide_rank, lemma_slide_targets_differ, slide_targets};
use crate::movegen::{
    full_moves, full_moves_before, full_moves_from, full_moves_through, lemma_slides_sound,
    ray_reach_from, slides, square_at,
};
use crate::rules::{is_direction, ray_index, ray_on_board};

verus! {

/// A ray does not reach the first square that lies off the board.
proof fn lemma_ray_stops_at_edge(
    board: Seq<Piece>,
    from: Coordinate,
    dy: int,
    dx: int,
    k: int,
    n: int,
)
    requires
        from.on_board(),
        is_direction(dy, dx),
        1 <= k <= n,
        !ray_on_board(from, dy, dx, n),
    ensures
        ray_reach_from(board, from, dy, dx, k) <= n - k,
    decreases n - k,
{
    if 1 <= k < 10 && ray_on_board(from, dy, dx, k) && board[ray_index(from, dy, dx, k)]
        == Piece::Nothing {
        lemma_ray_stops_at_edge(board, from, dy, dx, k + 1, n);
    }
}

/// The lesser of two numbers.
spec fn least(a: int, b: int) -> int {
    if a <= b {
        a
    } else {
        b
    }
}

/// A piece has no more than 35 squares to slide to, wherever it stands and
/// whatever stands around it.
pub proof fn lemma_at_most_35_slides(board: Seq<Piece>, from: Coordinate)
    requires
        from.on_board(),
    ensures
        slides(board, from).len() <= 35,
{
    let y = from.y as int;
    let x = from.x as int;
    lemma_ray_stops_at_edge(board, from, -1, -1, 1, least(y, x) + 1);
    lemma_ray_stops_at_edge(board, from, -1, 0, 1, y + 1);
    lemma_ray_stops_at_edge(board, from, -1, 1, 1, least(y, 9 - x) + 1);
    lemma_ray_stops_at_edge(board, from, 0, -1, 1, x + 1);
    lemma_ray_stops_at_edge(board, from, 0, 1, 1, 10 - x);
    lemma_ray_stops_at_edge(board, from, 1, -1, 1, least(9 - y, x) + 1);
    lemma_ray_stops_at_edge(board, from, 1, 0, 1, 10 - y);
    lemma_ray_stops_at_edge(board, from, 1, 1, 1, least(9 - y, 9 - x) + 1);
}

/// The empty squares among the first `n`.
pub open spec fn empties(board: Seq<Piece>, n: int) -> Set<int> {
    Set::new(|s: int| 0 <= s < n && board[s] == Piece::Nothing)
}

proof fn lemma_slide_targets_empty(board: Seq<Piece>, from: Coordinate)
    requires
        from.on_board(),
    ensures
        slide_targets(board, from).to_set().subset_of(empties(board, 100)),
{
    let targets = slide_targets(board, from);
    assert forall|s: int| targets.to_set().contains(s) implies empties(board, 100).contains(s) by {
        let i = choose|i: int| 0 <= i < targets.len() && targets[i] == s;
        lemma_slide_rank(board, from, i);
    }
}

proof fn lemma_empties_finite(board: Seq<Piece>)
    ensures
        empties(board, 100).finite(),
{
    lemma_int_range(0, 100);
    assert(empties(board, 100).subset_of(set_int_range(0, 100)));
    lemma_len_subset(empties(board, 100), set_int_range(0, 100));
}

/// A piece cannot slide to more squares than are empty.
pub proof fn lemma_slides_within_empties(board: Seq<Piece>, from: Coordinate)
    requires
        from.on_board(),
    ensures
        empties(board, 100).finite(),
        slides(board, from).len() <= empties(board, 100).len(),
{
    let targets = slide_targets(board, from);
    lemma_slide_targets_differ(board, from);
    targets.unique_seq_to_set();
    lemma_empties_finite(board);
    lemma_slide_targets_empty(board, from);
    lemma_len_subset(targets.to_set(), empties(board, 100));
}

/// Number of squares among the first `n` that hold `side`.
pub open spec fn pieces_before(board: Seq<Piece>, side: Piece, n: nat) -> nat
    decreases n,
{
    if n == 0 {
        0
    } else {
        pieces_before(board, side, (n - 1) as nat) + if board[n - 1] == side {
            1nat
        } else {
            0nat
        }
    }
}

proof fn lemma_pieces_and_empties(board: Seq<Piece>, side: Piece, n: nat)
    requires
        side != Piece::Nothing,
    ensures
        empties(board, n as int).finite(),
        pieces_before(board, side, n) + empties(board, n as int).len() <= n,
    decreases n,
{
    if n == 0 {
        assert(empties(board, 0) =~= Set::<int>::empty());
    } else {
        lemma_pieces_and_empties(board, side, (n - 1) as nat);
        let before = empties(board, n - 1);
        if board[n - 1] == Piece::Nothing {
            assert(empties(board, n as int) =~= before.insert(n - 1));
        } else {
            assert(empties(board, n as int) =~= before);
        }
    }
}

/// The most full moves that one piece can have when `e` squares are empty.
spec fn piece_limit(e: int) -> int {
    35 * least(35, e)
}

proof fn lemma_through_limit(board: Seq<Piece>, from: Coordinate, n: nat)
    requires
        from.on_board(),
        n <= slides(board, from).len(),
    ensures
        full_moves_through(board, slides(board, from), n).len() <= 35 * n,
    decreases n,
{
    if n > 0 {
        lemma_through_limit(board, from, (n - 1) as nat);
        let m = slides(board, from)[n - 1];
        lemma_slides_sound(board, from, n - 1);
        lemma_at_most_35_slides(moved_board(board, m.from, m.to), m.to);
    }
}

proof fn lemma_before_limit(board: Seq<Piece>, side: Piece, n: nat)
    requires
        n <= 100,
    ensures
        full_moves_before(board, side, n).len() <= pieces_before(board, side, n) * piece_limit(
            empties(board, 100).len() as int,
        ),
    decreases n,
{
    let limit = piece_limit(empties(board, 100).len() as int);
    if n > 0 {
        lemma_before_limit(board, side, (n - 1) as nat);
        let from = square_at(n - 1);
        let p = pieces_before(board, side, (n - 1) as nat) as int;
        if board[n - 1] == side {
            lemma_at_most_35_slides(board, from);
            lemma_slides_within_empties(board, from);
            lemma_through_limit(board, from, slides(board, from).len());
            assert(full_moves_from(board, from).len() <= limit);
            assert((p + 1) * limit == p * limit + limit) by (nonlinear_arith);
        }
    } else {
        assert(0 * limit == 0) by (nonlinear_arith);
    }
}

/// Neither White nor Black ever has more than 79625 full moves: a piece
/// has 35 squares to go to at most and no more than there are empty
/// squares, 35 squares to shoot at from each, and pieces and empty squares
/// share the hundred squares of the board.
pub proof fn lemma_mobility_limit(board: Seq<Piece>, side: Piece)
    requires
        side != Piece::Nothing,
    ensures
        full_moves(board, side).len() <= 79625,
{
    lemma_before_limit(board, side, 100);
    lemma_pieces_and_empties(board, side, 100);
    let p = pieces_before(board, side, 100) as int;
    let e = empties(board, 100).len() as int;
    if e >= 35 {
        assert(p * (35 * 35) <= 79625) by (nonlinear_arith)
            requires
                0 <= p <= 65,
        ;
    } else {
        assert((34 - e) * (66 - e) >= 0) by (nonlinear_arith)
            requires
                0 <= e <= 34,
        ;
        assert(p * (35 * e) <= 79625) by (nonlinear_arith)
            requires
                0 <= p <= 100 - e,
                0 <= e <= 34,
                (34 - e) * (66 - e) >= 0,
        ;
    }
}

/// The squares that `piece` reaches within `n` hops.
spec fn level(board: Seq<Piece>, piece: Piece, n: nat) -> Set<int> {
    Set::new(|s: int| 0 <= s < 100 && reachable_within(board, piece, s, n))
}

proof fn lemma_level_finite(board: Seq<Piece>, piece: Piece, n: nat)
    ensures
        level(board, piece, n).finite(),
        level(board, piece, n).len() <= 100,
{
    lemma_int_range(0, 100);
    assert(level(board, piece, n).subset_of(set_int_range(0, 100)));
    lemma_len_subset(level(board, piece, n), set_int_range(0, 100));
}

proof fn lemma_level_grows(board: Seq<Piece>, piece: Piece, n: nat, m: nat)
    requires
        n <= m,
    ensures
        level(board, piece, n).subset_of(level(board, piece, m)),
    decreases m - n,
{
    if n < m {
        lemma_level_grows(board, piece, n, (m - 1) as nat);
        assert forall|s: int| level(board, piece, (m - 1) as nat).contains(s) implies level(
            board,
            piece,
            m,
        ).contains(s) by {}
    }
}

/// Once a hop more reaches nothing new, no number of hops does.
proof fn lemma_level_settles(board: Seq<Piece>, piece: Piece, n: nat, m: nat)
    requires
        level(board, piece, n + 1).subset_of(level(board, piece, n)),
        n <= m,
    ensures
        level(board, piece, m).subset_of(level(board, piece, n)),
    decreases m - n,
{
    if n < m {
        lemma_level_settles(board, piece, n, (m - 1) as nat);
        assert forall|s: int| level(board, piece, m).contains(s) implies level(
            board,
            piece,
            n,
        ).contains(s) by {
            if reachable_within(board, piece, s, (m - 1) as nat) {
                assert(level(board, piece, (m - 1) as nat).contains(s));
            } else {
                let a = choose|a: int|
                    0 <= a < 100 && reachable_within(board, piece, a, (m - 1) as nat)
                        && #[trigger] hop(board, a, s);
                assert(level(board, piece, (m - 1) as nat).contains(a));
                assert(level(board, piece, n).contains(a));
                assert(reachable_within(board, piece, s, n + 1));
                assert(level(board, piece, n + 1).contains(s));
            }
        }
    }
}

proof fn lemma_reached_from_a_source(board: Seq<Piece>, piece: Piece, s: int, n: nat)
    requires
        0 <= s < 100,
        reachable_within(board, piece, s, n),
    ensures
        exists|a: int| level(board, piece, 0).contains(a),
    decreases n,
{
    if n == 0 {
        assert(level(board, piece, 0).contains(s));
    } else if reachable_within(board, piece, s, (n - 1) as nat) {
        lemma_reached_from_a_source(board, piece, s, (n - 1) as nat);
    } else {
        let a = choose|a: int|
            0 <= a < 100 && reachable_within(board, piece, a, (n - 1) as nat) && #[trigger] hop(
                board,
                a,
                s,
            );
        lemma_reached_from_a_source(board, piece, a, (n - 1) as nat);
    }
}

/// While the square `s` is not yet reached, each hop more reaches a
/// square more.
proof fn lemma_levels_fill(board: Seq<Piece>, piece: Piece, s: int, k: nat, n: nat)
    requires
        0 <= s < 100,
        k >= 1,
        reachable_within(board, piece, s, k),
        !reachable_within(board, piece, s, (k - 1) as nat),
        n <= k,
    ensures
        level(board, piece, n).len() >= n + 1,
    decreases n,
{
    lemma_level_finite(board, piece, n);
    if n == 0 {
        lemma_reached_from_a_source(board, piece, s, k);
        let a = choose|a: int| level(board, piece, 0).contains(a);
        assert(level(board, piece, 0).len() != 0) by {
            if level(board, piece, 0).len() == 0 {
                assert(level(board, piece, 0) =~= Set::<int>::empty());
            }
        }
    } else {
        let lower = level(board, piece, (n - 1) as nat);
        let upper = level(board, piece, n);
        lemma_levels_fill(board, piece, s, k, (n - 1) as nat);
        lemma_level_grows(board, piece, (n - 1) as nat, n);
        if upper.subset_of(lower) {
            lemma_level_settles(board, piece, (n - 1) as nat, k);
            lemma_level_grows(board, piece, (n - 1) as nat, (k - 1) as nat);
            assert(level(board, piece, k).contains(s));
            assert(lower.contains(s));
            assert(level(board, piece, (k - 1) as nat).contains(s));
        }
        let x = choose|x: int| upper.contains(x) && !lower.contains(x);
        lower.lemma_subset_not_in_lt(upper, x);
    }
}

/// No square is more than 99 hops away from a piece that reaches it.
pub proof fn lemma_hop_distance_range(board: Seq<Piece>, piece: Piece, s: int)
    requires
        0 <= s < 100,
    ensures
        -1 <= hop_distance(board, piece, s) <= 99,
{
    if exists|n: nat| is_least_hops(board, piece, s, n) {
        let k = choose|n: nat| is_least_hops(board, piece, s, n);
        if k >= 1 {
            assert(!reachable_within(board, piece, s, (k - 1) as nat));
            lemma_levels_fill(board, piece, s, k, k);
            lemma_level_finite(board, piece, k);
        }
    }
}

proof fn lemma_area_before_range(board: Seq<Piece>, piece: Piece, n: nat)
    requires
        n <= 100,
    ensures
        -99 * n <= area_control_before(board, piece, n) <= 99 * n,
    decreases n,
{
    if n > 0 {
        lemma_area_before_range(board, piece, (n - 1) as nat);
        lemma_hop_distance_range(board, piece, n - 1);
        lemma_hop_distance_range(board, opposite(piece), n - 1);
    }
}

/// Every evaluation lies strictly between the scores of a lost and of a
/// won game: mobility is 79625 at most, and the area control of each side
/// 9900.
pub proof fn lemma_evaluation_range(pos: Position, piece: Piece)
    ensures
        -100000 < evaluation(pos, piece) < 100000,
{
    let mover = turn_piece(pos.turn);
    let other = opposite(mover);
    lemma_mobility_limit(pos.squares, mover);
    lemma_mobility_limit(pos.squares, other);
    lemma_area_before_range(pos.squares, mover, 100);
    lemma_area_before_range(pos.squares, other, 100);
}

} // verus!
