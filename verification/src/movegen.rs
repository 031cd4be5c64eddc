//! Move generation: the slides of one piece, and the full moves of a side.

use vstd::prelude::*;
use crate::board::{move_piece, moved_board, Coordinate, FullMove, Game, Move, Piece};
use crate::rules::{
    can_slide, is_direction, ray_index, ray_on_board, ray_square, ray_x, ray_y, sign,
    slide_length,
};

verus! {

/// Number of consecutive empty squares met from step `k` on, walking from
/// `from` in direction `(dy, dx)` until the edge or an occupied square.
pub open spec fn ray_reach_from(board: Seq<Piece>, from: Coordinate, dy: int, dx: int, k: int) -> nat
    decreases 10 - k,
{
    if 1 <= k < 10 && ray_on_board(from, dy, dx, k) && board[ray_index(from, dy, dx, k)]
        == Piece::Nothing {
        1 + ray_reach_from(board, from, dy, dx, k + 1)
    } else {
        0
    }
}

/// Number of squares that a piece on `from` can reach in direction `(dy, dx)`.
pub open spec fn ray_reach(board: Seq<Piece>, from: Coordinate, dy: int, dx: int) -> nat {
    ray_reach_from(board, from, dy, dx, 1)
}

/// The first `n` slides from `from` in direction `(dy, dx)`, nearest first.
pub open spec fn ray_prefix(from: Coordinate, dy: int, dx: int, n: nat) -> Seq<Move> {
    Seq::new(n, |i: int| Move { from: from, to: ray_square(from, dy, dx, i + 1) })
}

/// The slides from `from` in direction `(dy, dx)`, nearest first.
pub open spec fn ray_moves(board: Seq<Piece>, from: Coordinate, dy: int, dx: int) -> Seq<Move> {
    ray_prefix(from, dy, dx, ray_reach(board, from, dy, dx))
}

/// All slides from `from`: direction by direction (rows upward first, then
/// columns leftward first), and within a direction nearest first.
pub open spec fn slides(board: Seq<Piece>, from: Coordinate) -> Seq<Move> {
    ray_moves(board, from, -1, -1) + ray_moves(board, from, -1, 0) + ray_moves(board, from, -1, 1)
        + ray_moves(board, from, 0, -1) + ray_moves(board, from, 0, 1) + ray_moves(
        board,
        from,
        1,
        -1,
    ) + ray_moves(board, from, 1, 0) + ray_moves(board, from, 1, 1)
}

/// Appends to `moves` the slides from `coord` in direction `(dy, dx)`.
fn extend_along(game: &Game, coord: Coordinate, dy: i8, dx: i8, moves: &mut Vec<Move>)
    requires
        coord.on_board(),
        is_direction(dy as int, dx as int),
    ensures
        final(moves)@ == old(moves)@ + ray_moves(game@.squares, coord, dy as int, dx as int),
{
    let ghost board = game@.squares;
    let ghost before = moves@;
    let mut k: u8 = 1;
    let mut y: i8 = coord.y as i8 + dy;
    let mut x: i8 = coord.x as i8 + dx;
    loop
        invariant
            coord.on_board(),
            is_direction(dy as int, dx as int),
            board == game@.squares,
            1 <= k <= 10,
            y == ray_y(coord, dy as int, k as int),
            x == ray_x(coord, dx as int, k as int),
            moves@ == before + ray_prefix(coord, dy as int, dx as int, (k - 1) as nat),
            ray_reach(board, coord, dy as int, dx as int) == (k - 1) + ray_reach_from(
                board,
                coord,
                dy as int,
                dx as int,
                k as int,
            ),
        ensures
            moves@ == before + ray_moves(board, coord, dy as int, dx as int),
        decreases 10 - k,
    {
        if y < 0 || x < 0 || y > 9 || x > 9 {
            break ;
        }
        let here = Coordinate { y: y as u8, x: x as u8 };
        assert(here.index() == ray_index(coord, dy as int, dx as int, k as int));
        assert(here == ray_square(coord, dy as int, dx as int, k as int));
        if game.piece_at(here) == Piece::Nothing {
            moves.push(Move { from: coord, to: here });
            assert(moves@ =~= before + ray_prefix(coord, dy as int, dx as int, k as nat));
            k += 1;
            y += dy;
            x += dx;
        } else {
            break ;
        }
    }
}

/// Lists the squares that a piece standing on `coord` can slide to, as
/// moves from `coord`. What `coord` itself holds is not looked at.
pub fn find_possible_moves(game: Game, coord: Coordinate) -> (moves: Vec<Move>)
    requires
        coord.on_board(),
    ensures
        moves@ == slides(game@.squares, coord),
{
    let mut possible_moves: Vec<Move> = Vec::new();
    extend_along(&game, coord, -1, -1, &mut possible_moves);
    extend_along(&game, coord, -1, 0, &mut possible_moves);
    extend_along(&game, coord, -1, 1, &mut possible_moves);
    extend_along(&game, coord, 0, -1, &mut possible_moves);
    extend_along(&game, coord, 0, 1, &mut possible_moves);
    extend_along(&game, coord, 1, -1, &mut possible_moves);
    extend_along(&game, coord, 1, 0, &mut possible_moves);
    extend_along(&game, coord, 1, 1, &mut possible_moves);
    assert(possible_moves@ =~= slides(game@.squares, coord));
    possible_moves
}

/// Every square counted by the reach along a ray is on the board and empty.
pub proof fn lemma_ray_free(board: Seq<Piece>, from: Coordinate, dy: int, dx: int, k: int, j: int)
    requires
        1 <= k <= j < k + ray_reach_from(board, from, dy, dx, k),
    ensures
        j < 10,
        ray_on_board(from, dy, dx, j),
        board[ray_index(from, dy, dx, j)] == Piece::Nothing,
    decreases j - k,
{
    if j > k {
        lemma_ray_free(board, from, dy, dx, k + 1, j);
    }
}

/// A run of free squares along a ray is counted by the reach.
pub proof fn lemma_ray_reaches(board: Seq<Piece>, from: Coordinate, dy: int, dx: int, k: int, n: int)
    requires
        1 <= k <= n + 1,
        forall|j: int|
            k <= j <= n ==> j < 10 && ray_on_board(from, dy, dx, j) && #[trigger] board[ray_index(
                from,
                dy,
                dx,
                j,
            )] == Piece::Nothing,
    ensures
        ray_reach_from(board, from, dy, dx, k) >= n - k + 1,
    decreases n + 1 - k,
{
    if k <= n {
        assert(board[ray_index(from, dy, dx, k)] == Piece::Nothing);
        lemma_ray_reaches(board, from, dy, dx, k + 1, n);
    }
}

/// The `n`-th square along a ray, within its reach, can be slid to.
pub proof fn lemma_ray_move_sound(board: Seq<Piece>, from: Coordinate, dy: int, dx: int, n: int)
    requires
        from.on_board(),
        is_direction(dy, dx),
        1 <= n <= ray_reach(board, from, dy, dx),
    ensures
        can_slide(board, from, ray_square(from, dy, dx, n)),
{
    let to = ray_square(from, dy, dx, n);
    lemma_ray_free(board, from, dy, dx, 1, n);
    assert(to.index() == ray_index(from, dy, dx, n));
    assert(sign(to.y - from.y) == dy);
    assert(sign(to.x - from.x) == dx);
    assert(slide_length(from, to) == n);
    assert forall|k: int| 1 <= k < slide_length(from, to) implies #[trigger] board[ray_index(
        from,
        sign(to.y - from.y),
        sign(to.x - from.x),
        k,
    )] == Piece::Nothing by {
        lemma_ray_free(board, from, dy, dx, 1, k);
    }
}

/// No slide lands on an occupied square, leaves the queen lines or passes
/// over an occupied square: each generated move starts on `from` and
/// satisfies `can_slide`.
pub proof fn lemma_slides_sound(board: Seq<Piece>, from: Coordinate, i: int)
    requires
        from.on_board(),
        0 <= i < slides(board, from).len(),
    ensures
        slides(board, from)[i].from == from,
        can_slide(board, from, slides(board, from)[i].to),
{
    let r0 = ray_moves(board, from, -1, -1);
    let r1 = ray_moves(board, from, -1, 0);
    let r2 = ray_moves(board, from, -1, 1);
    let r3 = ray_moves(board, from, 0, -1);
    let r4 = ray_moves(board, from, 0, 1);
    let r5 = ray_moves(board, from, 1, -1);
    let r6 = ray_moves(board, from, 1, 0);
    let r7 = ray_moves(board, from, 1, 1);
    let n0 = r0.len() as int;
    let n1 = n0 + r1.len();
    let n2 = n1 + r2.len();
    let n3 = n2 + r3.len();
    let n4 = n3 + r4.len();
    let n5 = n4 + r5.len();
    let n6 = n5 + r6.len();
    if i < n0 {
        lemma_ray_move_sound(board, from, -1, -1, i + 1);
    } else if i < n1 {
        lemma_ray_move_sound(board, from, -1, 0, i - n0 + 1);
    } else if i < n2 {
        lemma_ray_move_sound(board, from, -1, 1, i - n1 + 1);
    } else if i < n3 {
        lemma_ray_move_sound(board, from, 0, -1, i - n2 + 1);
    } else if i < n4 {
        lemma_ray_move_sound(board, from, 0, 1, i - n3 + 1);
    } else if i < n5 {
        lemma_ray_move_sound(board, from, 1, -1, i - n4 + 1);
    } else if i < n6 {
        lemma_ray_move_sound(board, from, 1, 0, i - n5 + 1);
    } else {
        lemma_ray_move_sound(board, from, 1, 1, i - n6 + 1);
    }
}

/// Every square that can be slid to is generated.
pub proof fn lemma_slides_complete(board: Seq<Piece>, from: Coordinate, to: Coordinate)
    requires
        can_slide(board, from, to),
    ensures
        slides(board, from).contains(Move { from: from, to: to }),
{
    let dy = sign(to.y - from.y);
    let dx = sign(to.x - from.x);
    let n = slide_length(from, to);
    assert(to == ray_square(from, dy, dx, n));
    assert forall|j: int| 1 <= j <= n implies j < 10 && ray_on_board(from, dy, dx, j)
        && #[trigger] board[ray_index(from, dy, dx, j)] == Piece::Nothing by {
        if j == n {
            assert(ray_index(from, dy, dx, j) == to.index());
        }
    }
    lemma_ray_reaches(board, from, dy, dx, 1, n);
    let m = Move { from: from, to: to };
    assert(ray_moves(board, from, dy, dx)[n - 1] == m);
    let r0 = ray_moves(board, from, -1, -1);
    let r1 = ray_moves(board, from, -1, 0);
    let r2 = ray_moves(board, from, -1, 1);
    let r3 = ray_moves(board, from, 0, -1);
    let r4 = ray_moves(board, from, 0, 1);
    let r5 = ray_moves(board, from, 1, -1);
    let r6 = ray_moves(board, from, 1, 0);
    let n0 = r0.len() as int;
    let n1 = n0 + r1.len();
    let n2 = n1 + r2.len();
    let n3 = n2 + r3.len();
    let n4 = n3 + r4.len();
    let n5 = n4 + r5.len();
    let n6 = n5 + r6.len();
    let base = if dy == -1 {
        if dx == -1 {
            0
        } else if dx == 0 {
            n0
        } else {
            n1
        }
    } else if dy == 0 {
        if dx == -1 {
            n2
        } else {
            n3
        }
    } else {
        if dx == -1 {
            n4
        } else if dx == 0 {
            n5
        } else {
            n6
        }
    };
    assert(slides(board, from)[base + n - 1] == m);
}

/// The full moves that begin with the relocation `m`: one for each shot
/// from the new square, in the order of the slides from it.
pub open spec fn shots_after(board: Seq<Piece>, m: Move) -> Seq<FullMove> {
    let arrows = slides(moved_board(board, m.from, m.to), m.to);
    Seq::new(
        arrows.len(),
        |j: int| FullMove { from: m.from, to: m.to, shoot: arrows[j].to },
    )
}

/// The full moves that begin with one of the first `n` relocations of `ms`.
pub open spec fn full_moves_through(board: Seq<Piece>, ms: Seq<Move>, n: nat) -> Seq<FullMove>
    decreases n,
{
    if n == 0 {
        Seq::empty()
    } else {
        full_moves_through(board, ms, (n - 1) as nat) + shots_after(board, ms[n - 1])
    }
}

/// The full moves of whatever stands on `from`.
pub open spec fn full_moves_from(board: Seq<Piece>, from: Coordinate) -> Seq<FullMove> {
    full_moves_through(board, slides(board, from), slides(board, from).len())
}

/// The square at row-major position `i`.
pub open spec fn square_at(i: int) -> Coordinate {
    Coordinate { y: (i / 10) as u8, x: (i % 10) as u8 }
}

/// The full moves of the pieces of `side` that stand on the first `n`
/// squares in row-major order.
pub open spec fn full_moves_before(board: Seq<Piece>, side: Piece, n: nat) -> Seq<FullMove>
    decreases n,
{
    if n == 0 {
        Seq::empty()
    } else {
        let rest = full_moves_before(board, side, (n - 1) as nat);
        if board[n - 1] == side {
            rest + full_moves_from(board, square_at(n - 1))
        } else {
            rest
        }
    }
}

/// Every full move of `side`: square by square in row-major order, then
/// relocation by relocation, then shot by shot.
pub open spec fn full_moves(board: Seq<Piece>, side: Piece) -> Seq<FullMove> {
    full_moves_before(board, side, 100)
}

/// Appends to `out` the full moves of whatever stands on `coord`.
fn extend_from(game: &Game, coord: Coordinate, out: &mut Vec<FullMove>)
    requires
        coord.on_board(),
    ensures
        final(out)@ == old(out)@ + full_moves_from(game@.squares, coord),
{
    let ghost board = game@.squares;
    let ghost before = out@;
    let moves = find_possible_moves(*game, coord);
    let mut i: usize = 0;
    while i < moves.len()
        invariant
            coord.on_board(),
            board == game@.squares,
            moves@ == slides(board, coord),
            i <= moves.len(),
            out@ == before + full_moves_through(board, moves@, i as nat),
        decreases moves.len() - i,
    {
        let m = moves[i];
        proof {
            lemma_slides_sound(board, coord, i as int);
        }
        let game_after_move = move_piece(*game, m);
        let arrow_moves = find_possible_moves(game_after_move, m.to);
        let ghost shots = shots_after(board, m);
        let ghost start = out@;
        let mut j: usize = 0;
        while j < arrow_moves.len()
            invariant
                arrow_moves@ == slides(moved_board(board, m.from, m.to), m.to),
                shots == shots_after(board, m),
                j <= arrow_moves.len(),
                out@ == start + shots.take(j as int),
            decreases arrow_moves.len() - j,
        {
            out.push(FullMove { from: m.from, to: m.to, shoot: arrow_moves[j].to });
            j += 1;
            assert(out@ =~= start + shots.take(j as int));
        }
        assert(shots.take(j as int) =~= shots);
        i += 1;
        assert(out@ =~= before + full_moves_through(board, moves@, i as nat));
    }
}

/// Lists every full move of `side`: for each square that holds `side`, each
/// slide from it combined with each shot from the square slid to.
pub fn find_possible_moves_side(game: Game, side: Piece) -> (moves: Vec<FullMove>)
    ensures
        moves@ == full_moves(game@.squares, side),
{
    let ghost board = game@.squares;
    let mut possible_moves: Vec<FullMove> = Vec::new();
    let mut y: u8 = 0;
    while y < 10
        invariant
            board == game@.squares,
            y <= 10,
            possible_moves@ == full_moves_before(board, side, (10 * y) as nat),
        decreases 10 - y,
    {
        let mut x: u8 = 0;
        while x < 10
            invariant
                board == game@.squares,
                y < 10,
                x <= 10,
                possible_moves@ == full_moves_before(board, side, (10 * y + x) as nat),
            decreases 10 - x,
        {
            let coord = Coordinate { y: y, x: x };
            assert(coord == square_at(10 * y + x));
            if game.piece_at(coord) == side {
                extend_from(&game, coord, &mut possible_moves);
            }
            x += 1;
        }
        y += 1;
    }
    possible_moves
}

/// Tests whether a piece standing on `coord` would have a square to slide to.
pub fn can_move(game: Game, coord: Coordinate) -> (r: bool)
    requires
        coord.on_board(),
    ensures
        r == (slides(game@.squares, coord).len() > 0),
{
    let possible_moves = find_possible_moves(game, coord);
    possible_moves.len() > 0
}

/// `m` is a full move of a piece of `side`: its origin holds `side`, the
/// relocation is a slide on `board`, and the shot is a slide on the board
/// with the piece relocated.
pub open spec fn is_full_move_of(board: Seq<Piece>, side: Piece, m: FullMove) -> bool {
    &&& m.from.on_board()
    &&& board[m.from.index()] == side
    &&& can_slide(board, m.from, m.to)
    &&& can_slide(moved_board(board, m.from, m.to), m.to, m.shoot)
}

proof fn lemma_through_sound(board: Seq<Piece>, from: Coordinate, n: nat, i: int)
    requires
        from.on_board(),
        n <= slides(board, from).len(),
        0 <= i < full_moves_through(board, slides(board, from), n).len(),
    ensures
        ({
            let m = full_moves_through(board, slides(board, from), n)[i];
            &&& m.from == from
            &&& can_slide(board, from, m.to)
            &&& can_slide(moved_board(board, from, m.to), m.to, m.shoot)
        }),
    decreases n,
{
    let ms = slides(board, from);
    let rest = full_moves_through(board, ms, (n - 1) as nat);
    if i < rest.len() {
        lemma_through_sound(board, from, (n - 1) as nat, i);
    } else {
        let m = ms[n - 1];
        lemma_slides_sound(board, from, n - 1);
        lemma_slides_sound(moved_board(board, m.from, m.to), m.to, i - rest.len());
    }
}

proof fn lemma_before_sound(board: Seq<Piece>, side: Piece, n: nat, i: int)
    requires
        n <= 100,
        0 <= i < full_moves_before(board, side, n).len(),
    ensures
        is_full_move_of(board, side, full_moves_before(board, side, n)[i]),
    decreases n,
{
    let rest = full_moves_before(board, side, (n - 1) as nat);
    if i < rest.len() {
        lemma_before_sound(board, side, (n - 1) as nat, i);
    } else {
        let from = square_at(n - 1);
        assert(from.index() == n - 1);
        lemma_through_sound(board, from, slides(board, from).len(), i - rest.len());
    }
}

/// Every generated full move belongs to a piece of `side` and is made of
/// two slides: none lands on or passes over an occupied square.
pub proof fn lemma_full_moves_sound(board: Seq<Piece>, side: Piece, i: int)
    requires
        0 <= i < full_moves(board, side).len(),
    ensures
        is_full_move_of(board, side, full_moves(board, side)[i]),
{
    lemma_before_sound(board, side, 100, i);
}

proof fn lemma_through_complete(board: Seq<Piece>, ms: Seq<Move>, n: nat, k: int, shoot: Coordinate)
    requires
        0 <= k < n <= ms.len(),
        can_slide(moved_board(board, ms[k].from, ms[k].to), ms[k].to, shoot),
    ensures
        full_moves_through(board, ms, n).contains(
            FullMove { from: ms[k].from, to: ms[k].to, shoot: shoot },
        ),
    decreases n,
{
    let rest = full_moves_through(board, ms, (n - 1) as nat);
    let target = FullMove { from: ms[k].from, to: ms[k].to, shoot: shoot };
    if k < n - 1 {
        lemma_through_complete(board, ms, (n - 1) as nat, k, shoot);
        let w = choose|w: int| 0 <= w < rest.len() && rest[w] == target;
        assert(full_moves_through(board, ms, n)[w] == target);
    } else {
        let m = ms[k];
        let after = moved_board(board, m.from, m.to);
        lemma_slides_complete(after, m.to, shoot);
        let arrows = slides(after, m.to);
        let w = choose|w: int| 0 <= w < arrows.len() && arrows[w] == (Move { from: m.to, to: shoot });
        assert(shots_after(board, m)[w] == target);
        assert(full_moves_through(board, ms, n)[rest.len() + w] == target);
    }
}

proof fn lemma_before_complete(board: Seq<Piece>, side: Piece, n: nat, m: FullMove)
    requires
        is_full_move_of(board, side, m),
        m.from.index() < n <= 100,
    ensures
        full_moves_before(board, side, n).contains(m),
    decreases n,
{
    let rest = full_moves_before(board, side, (n - 1) as nat);
    if m.from.index() < n - 1 {
        lemma_before_complete(board, side, (n - 1) as nat, m);
        let w = choose|w: int| 0 <= w < rest.len() && rest[w] == m;
        assert(full_moves_before(board, side, n)[w] == m);
    } else {
        let from = m.from;
        assert(square_at(n - 1) == from);
        let ms = slides(board, from);
        lemma_slides_complete(board, from, m.to);
        let k = choose|k: int| 0 <= k < ms.len() && ms[k] == (Move { from: from, to: m.to });
        lemma_through_complete(board, ms, ms.len(), k, m.shoot);
        let part = full_moves_from(board, from);
        let w = choose|w: int| 0 <= w < part.len() && part[w] == m;
        assert(full_moves_before(board, side, n)[rest.len() + w] == m);
    }
}

/// Every full move of a piece of `side` is generated.
pub proof fn lemma_full_moves_complete(board: Seq<Piece>, side: Piece, m: FullMove)
    requires
        is_full_move_of(board, side, m),
    ensures
        full_moves(board, side).contains(m),
{
    lemma_before_complete(board, side, 100, m);
}

} // verus!
