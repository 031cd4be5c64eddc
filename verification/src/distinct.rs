//! Every move is generated once: no two slides from a square lead to the
//! same square, and no full move stands twice in the list of a side.

use vstd::prelude::*;
use crate::board::{moved_board, Coordinate, Piece};
use crate::movegen::{
    full_moves, full_moves_before, full_moves_through, lemma_ray_free, lemma_slides_sound,
    ray_moves, ray_reach, slides, square_at,
};
use crate::rules::{is_direction, ray_index, ray_square, sign, slide_length};

verus! {

/// The place of the slide to `to` among the slides from `from`.
#[verifier::opaque]
pub closed spec fn slide_rank(board: Seq<Piece>, from: Coordinate, to: Coordinate) -> int {
    let dy = sign(to.y - from.y);
    let dx = sign(to.x - from.x);
    let n0 = ray_moves(board, from, -1, -1).len() as int;
    let n1 = n0 + ray_moves(board, from, -1, 0).len();
    let n2 = n1 + ray_moves(board, from, -1, 1).len();
    let n3 = n2 + ray_moves(board, from, 0, -1).len();
    let n4 = n3 + ray_moves(board, from, 0, 1).len();
    let n5 = n4 + ray_moves(board, from, 1, -1).len();
    let n6 = n5 + ray_moves(board, from, 1, 0).len();
    let base = if dy == -1 {
        if dx == -1 {
            0
        } else if dx == 0 {
            n0
        } else {
            n1
        }
    } else if dy == 0 {
        if dx == -1 {
            n2
        } else {
            n3
        }
    } else {
        if dx == -1 {
            n4
        } else if dx == 0 {
            n5
        } else {
            n6
        }
    };
    base + slide_length(from, to) - 1
}

proof fn lemma_ray_square_geometry(board: Seq<Piece>, from: Coordinate, dy: int, dx: int, n: int)
    requires
        from.on_board(),
        is_direction(dy, dx),
        1 <= n <= ray_reach(board, from, dy, dx),
    ensures
        ({
            let to = ray_square(from, dy, dx, n);
            &&& to.on_board()
            &&& board[to.index()] == Piece::Nothing
            &&& sign(to.y - from.y) == dy
            &&& sign(to.x - from.x) == dx
            &&& slide_length(from, to) == n
        }),
{
    lemma_ray_free(board, from, dy, dx, 1, n);
    let to = ray_square(from, dy, dx, n);
    assert(to.index() == ray_index(from, dy, dx, n));
}

/// The slide at position `i` has rank `i`, and leads to an empty square of
/// the board.
pub proof fn lemma_slide_rank(board: Seq<Piece>, from: Coordinate, i: int)
    requires
        from.on_board(),
        0 <= i < slides(board, from).len(),
    ensures
        slide_rank(board, from, slides(board, from)[i].to) == i,
        slides(board, from)[i].to.on_board(),
        board[slides(board, from)[i].to.index()] == Piece::Nothing,
{
    reveal(slide_rank);
    let n0 = ray_moves(board, from, -1, -1).len() as int;
    let n1 = n0 + ray_moves(board, from, -1, 0).len();
    let n2 = n1 + ray_moves(board, from, -1, 1).len();
    let n3 = n2 + ray_moves(board, from, 0, -1).len();
    let n4 = n3 + ray_moves(board, from, 0, 1).len();
    let n5 = n4 + ray_moves(board, from, 1, -1).len();
    let n6 = n5 + ray_moves(board, from, 1, 0).len();
    if i < n0 {
        lemma_ray_square_geometry(board, from, -1, -1, i + 1);
    } else if i < n1 {
        lemma_ray_square_geometry(board, from, -1, 0, i - n0 + 1);
    } else if i < n2 {
        lemma_ray_square_geometry(board, from, -1, 1, i - n1 + 1);
    } else if i < n3 {
        lemma_ray_square_geometry(board, from, 0, -1, i - n2 + 1);
    } else if i < n4 {
        lemma_ray_square_geometry(board, from, 0, 1, i - n3 + 1);
    } else if i < n5 {
        lemma_ray_square_geometry(board, from, 1, -1, i - n4 + 1);
    } else if i < n6 {
        lemma_ray_square_geometry(board, from, 1, 0, i - n5 + 1);
    } else {
        lemma_ray_square_geometry(board, from, 1, 1, i - n6 + 1);
    }
}

/// The squares that the slides from `from` lead to, by their positions.
pub open spec fn slide_targets(board: Seq<Piece>, from: Coordinate) -> Seq<int> {
    Seq::new(slides(board, from).len(), |i: int| slides(board, from)[i].to.index())
}

/// No two slides from a square lead to the same square.
pub proof fn lemma_slide_targets_differ(board: Seq<Piece>, from: Coordinate)
    requires
        from.on_board(),
    ensures
        slide_targets(board, from).no_duplicates(),
{
    let all = slides(board, from);
    let targets = slide_targets(board, from);
    assert forall|i: int, j: int|
        0 <= i < targets.len() && 0 <= j < targets.len() && i != j implies targets[i]
        != targets[j] by {
        lemma_slide_rank(board, from, i);
        lemma_slide_rank(board, from, j);
        if targets[i] == targets[j] {
            assert(all[i].to.index() == all[j].to.index());
            assert(all[i].to == all[j].to);
        }
    }
}

proof fn lemma_shots_differ(board: Seq<Piece>, from: Coordinate, to: Coordinate, a: int, b: int)
    requires
        to.on_board(),
        0 <= a < b < slides(moved_board(board, from, to), to).len(),
    ensures
        slides(moved_board(board, from, to), to)[a].to != slides(
            moved_board(board, from, to),
            to,
        )[b].to,
{
    let after = moved_board(board, from, to);
    lemma_slide_targets_differ(after, to);
    assert(slide_targets(after, to)[a] != slide_targets(after, to)[b]);
}

/// Each of the full moves that begin with one of the first `n` slides from
/// `from` moves a piece from `from` along one of these slides.
proof fn lemma_through_slide(board: Seq<Piece>, from: Coordinate, n: nat, a: int) -> (k: int)
    requires
        from.on_board(),
        n <= slides(board, from).len(),
        0 <= a < full_moves_through(board, slides(board, from), n).len(),
    ensures
        0 <= k < n,
        full_moves_through(board, slides(board, from), n)[a].from == from,
        full_moves_through(board, slides(board, from), n)[a].to == slides(board, from)[k].to,
    decreases n,
{
    let rest = full_moves_through(board, slides(board, from), (n - 1) as nat);
    lemma_slides_sound(board, from, n - 1);
    if a < rest.len() {
        lemma_through_slide(board, from, (n - 1) as nat, a)
    } else {
        n - 1
    }
}

proof fn lemma_through_differ(board: Seq<Piece>, from: Coordinate, n: nat, a: int, b: int)
    requires
        from.on_board(),
        n <= slides(board, from).len(),
        0 <= a < b < full_moves_through(board, slides(board, from), n).len(),
    ensures
        full_moves_through(board, slides(board, from), n)[a] != full_moves_through(
            board,
            slides(board, from),
            n,
        )[b],
    decreases n,
{
    let all = slides(board, from);
    let rest = full_moves_through(board, all, (n - 1) as nat);
    lemma_slides_sound(board, from, n - 1);
    if b < rest.len() {
        lemma_through_differ(board, from, (n - 1) as nat, a, b);
    } else if a < rest.len() {
        let k = lemma_through_slide(board, from, (n - 1) as nat, a);
        lemma_slide_targets_differ(board, from);
        assert(slide_targets(board, from)[k] != slide_targets(board, from)[n - 1]);
    } else {
        let m = all[n - 1];
        lemma_shots_differ(board, m.from, m.to, a - rest.len(), b - rest.len());
    }
}

/// Each of the full moves of the pieces on the first `n` squares starts on
/// one of these squares.
proof fn lemma_before_origin(board: Seq<Piece>, side: Piece, n: nat, a: int)
    requires
        n <= 100,
        0 <= a < full_moves_before(board, side, n).len(),
    ensures
        full_moves_before(board, side, n)[a].from.on_board(),
        full_moves_before(board, side, n)[a].from.index() < n,
    decreases n,
{
    let rest = full_moves_before(board, side, (n - 1) as nat);
    if a < rest.len() {
        lemma_before_origin(board, side, (n - 1) as nat, a);
    } else {
        let from = square_at(n - 1);
        let k = lemma_through_slide(board, from, slides(board, from).len(), a - rest.len());
    }
}

proof fn lemma_before_differ(board: Seq<Piece>, side: Piece, n: nat, a: int, b: int)
    requires
        n <= 100,
        0 <= a < b < full_moves_before(board, side, n).len(),
    ensures
        full_moves_before(board, side, n)[a] != full_moves_before(board, side, n)[b],
    decreases n,
{
    let rest = full_moves_before(board, side, (n - 1) as nat);
    if b < rest.len() {
        lemma_before_differ(board, side, (n - 1) as nat, a, b);
    } else if a < rest.len() {
        lemma_before_origin(board, side, (n - 1) as nat, a);
        let from = square_at(n - 1);
        let k = lemma_through_slide(board, from, slides(board, from).len(), b - rest.len());
        assert(from.index() == n - 1);
    } else {
        let from = square_at(n - 1);
        lemma_through_differ(
            board,
            from,
            slides(board, from).len(),
            a - rest.len(),
            b - rest.len(),
        );
    }
}

/// No full move stands twice in the list of the moves of a side.
pub proof fn lemma_full_moves_differ(board: Seq<Piece>, side: Piece, a: int, b: int)
    requires
        0 <= a < full_moves(board, side).len(),
        0 <= b < full_moves(board, side).len(),
        a != b,
    ensures
        full_moves(board, side)[a] != full_moves(board, side)[b],
{
    if a < b {
        lemma_before_differ(board, side, 100, a, b);
    } else {
        lemma_before_differ(board, side, 100, b, a);
    }
}

} // verus!
