//! Legality of slides and of full moves, and the application of a full move.

use vstd::prelude::*;
use crate::board::{
    full_move_to_move, full_move_to_shoot_move, move_piece, moved_board, relocated, turn_piece,
    turn_to_piece, Coordinate, FullMove, Game, Move, Piece, Position,
};

verus! {

/// Displacement after `k` steps along one axis whose unit step is `d`
/// (`d` is -1, 0 or 1).
pub open spec fn offset(d: int, k: int) -> int {
    if d > 0 {
        k
    } else if d < 0 {
        -k
    } else {
        0
    }
}

/// Sign of `d`: -1, 0 or 1.
pub open spec fn sign(d: int) -> int {
    if d > 0 {
        1
    } else if d < 0 {
        -1
    } else {
        0
    }
}

/// Absolute value of `d`.
pub open spec fn magnitude(d: int) -> int {
    if d < 0 {
        -d
    } else {
        d
    }
}

/// `(dy, dx)` is one of the eight queen directions.
pub open spec fn is_direction(dy: int, dx: int) -> bool {
    -1 <= dy <= 1 && -1 <= dx <= 1 && !(dy == 0 && dx == 0)
}

/// Row of the square `k` steps from `from` in direction `(dy, dx)`.
pub open spec fn ray_y(from: Coordinate, dy: int, k: int) -> int {
    from.y + offset(dy, k)
}

/// Column of the square `k` steps from `from` in direction `(dy, dx)`.
pub open spec fn ray_x(from: Coordinate, dx: int, k: int) -> int {
    from.x + offset(dx, k)
}

/// The square `k` steps from `from` in direction `(dy, dx)` is on the board.
pub open spec fn ray_on_board(from: Coordinate, dy: int, dx: int, k: int) -> bool {
    0 <= ray_y(from, dy, k) < 10 && 0 <= ray_x(from, dx, k) < 10
}

/// Row-major position of the square `k` steps from `from` in direction `(dy, dx)`.
pub open spec fn ray_index(from: Coordinate, dy: int, dx: int, k: int) -> int {
    10 * ray_y(from, dy, k) + ray_x(from, dx, k)
}

/// The square `k` steps from `from` in direction `(dy, dx)`.
pub open spec fn ray_square(from: Coordinate, dy: int, dx: int, k: int) -> Coordinate {
    Coordinate { y: ray_y(from, dy, k) as u8, x: ray_x(from, dx, k) as u8 }
}

/// Number of steps of the slide from `from` to `to`: the larger of the two
/// absolute coordinate differences.
pub open spec fn slide_length(from: Coordinate, to: Coordinate) -> int {
    let ay = magnitude(to.y - from.y);
    let ax = magnitude(to.x - from.x);
    if ay >= ax {
        ay
    } else {
        ax
    }
}

/// `to` differs from `from` and lies on a row, column or diagonal through it.
pub open spec fn on_queen_line(from: Coordinate, to: Coordinate) -> bool {
    let ay = magnitude(to.y - from.y);
    let ax = magnitude(to.x - from.x);
    (ay != 0 || ax != 0) && (ay == 0 || ax == 0 || ay == ax)
}

/// Every square strictly between `from` and `to` is empty.
pub open spec fn path_clear(board: Seq<Piece>, from: Coordinate, to: Coordinate) -> bool {
    forall|k: int|
        1 <= k < slide_length(from, to) ==> #[trigger] board[ray_index(
            from,
            sign(to.y - from.y),
            sign(to.x - from.x),
            k,
        )] == Piece::Nothing
}

/// A piece standing on `from` can slide to `to`: both squares are on the
/// board, `to` is empty and lies on a queen line through `from`, and no
/// square between them is occupied. What `from` holds is not looked at.
pub open spec fn can_slide(board: Seq<Piece>, from: Coordinate, to: Coordinate) -> bool {
    &&& from.on_board()
    &&& to.on_board()
    &&& board[to.index()] == Piece::Nothing
    &&& on_queen_line(from, to)
    &&& path_clear(board, from, to)
}

/// Legality of a single slide for the side to move.
pub open spec fn valid_move(pos: Position, m: Move) -> bool {
    &&& m.from.on_board()
    &&& pos.at(m.from) == turn_piece(pos.turn)
    &&& can_slide(pos.squares, m.from, m.to)
}

/// Legality of a full move: the relocation is a legal slide and, with the
/// piece relocated, the shot is a legal slide from the new square.
pub open spec fn valid_full_move(pos: Position, m: FullMove) -> bool {
    &&& m.from.on_board()
    &&& pos.at(m.from) == turn_piece(pos.turn)
    &&& can_slide(pos.squares, m.from, m.to)
    &&& can_slide(moved_board(pos.squares, m.from, m.to), m.to, m.shoot)
}

/// A full move is legal exactly when its relocation is a legal slide and
/// its shot is a legal slide in the position with the piece relocated.
pub proof fn lemma_full_move_is_two_slides(pos: Position, m: FullMove)
    requires
        pos.wf(),
    ensures
        valid_full_move(pos, m) <==> valid_move(pos, Move { from: m.from, to: m.to })
            && valid_move(relocated(pos, m.from, m.to), Move { from: m.to, to: m.shoot }),
{
}

/// Sign of the difference `b - a` of two board coordinates.
fn direction(a: u8, b: u8) -> (d: i8)
    ensures
        d == sign(b - a),
{
    if b > a {
        1
    } else if b < a {
        -1
    } else {
        0
    }
}

/// Absolute difference of two board coordinates.
fn distance(a: u8, b: u8) -> (d: u8)
    ensures
        d == magnitude(b - a),
{
    if b > a {
        b - a
    } else {
        a - b
    }
}

/// Tests whether the side to move may slide the piece on `move_.from` to
/// `move_.to`. Coordinates off the board make the move invalid.
pub fn is_valid_move(game: Game, move_: Move) -> (valid: bool)
    ensures
        valid == valid_move(game@, move_),
{
    let from = move_.from;
    let to = move_.to;
    if !from.is_on_board() || !to.is_on_board() {
        return false;
    }
    if game.piece_at(from) != turn_to_piece(game.turn) {
        return false;
    }
    if game.piece_at(to) != Piece::Nothing {
        return false;
    }
    let y_len: u8 = distance(from.y, to.y);
    let x_len: u8 = distance(from.x, to.x);
    if y_len != x_len && x_len != 0 && y_len != 0 {
        return false;
    }
    if x_len == 0 && y_len == 0 {
        return false;
    }
    let y_sign: i8 = direction(from.y, to.y);
    let x_sign: i8 = direction(from.x, to.x);
    let length: u8 = if y_len >= x_len {
        y_len
    } else {
        x_len
    };
    let mut k: u8 = 1;
    let mut y: i8 = from.y as i8 + y_sign;
    let mut x: i8 = from.x as i8 + x_sign;
    while k < length
        invariant
            from == move_.from,
            to == move_.to,
            from.on_board(),
            to.on_board(),
            1 <= k <= length,
            length == slide_length(from, to),
            on_queen_line(from, to),
            y_sign == sign(to.y - from.y),
            x_sign == sign(to.x - from.x),
            y == ray_y(from, y_sign as int, k as int),
            x == ray_x(from, x_sign as int, k as int),
            forall|j: int|
                1 <= j < k ==> #[trigger] game.board@[ray_index(
                    from,
                    y_sign as int,
                    x_sign as int,
                    j,
                )] == Piece::Nothing,
        decreases length - k,
    {
        let here = Coordinate { y: y as u8, x: x as u8 };
        assert(here.index() == ray_index(from, y_sign as int, x_sign as int, k as int));
        if game.piece_at(here) != Piece::Nothing {
            assert(game@.squares[ray_index(
                from,
                sign(to.y - from.y),
                sign(to.x - from.x),
                k as int,
            )] != Piece::Nothing);
            return false;
        }
        k += 1;
        y += y_sign;
        x += x_sign;
    }
    true
}

/// Tests whether a full move is legal for the side to move.
pub fn is_valid_full_move(game: Game, full_move: FullMove) -> (valid: bool)
    ensures
        valid == valid_full_move(game@, full_move),
{
    if !is_valid_move(game, full_move_to_move(full_move)) {
        return false;
    }
    let game_after_move = move_piece(game, full_move_to_move(full_move));
    is_valid_move(game_after_move, full_move_to_shoot_move(full_move))
}

/// The position after a full move: the piece relocated, an arrow on the
/// shot square, and the other side to move.
pub open spec fn played(pos: Position, m: FullMove) -> Position {
    Position {
        squares: moved_board(pos.squares, m.from, m.to).update(m.shoot.index(), Piece::Arrow),
        turn: !pos.turn,
    }
}

/// Plays a legal full move. An illegal one is a fault of the caller.
pub fn play_move(game: Game, move_: FullMove) -> (new_game: Game)
    requires
        valid_full_move(game@, move_),
    ensures
        new_game@ == played(game@, move_),
{
    let mut new_game = move_piece(game, full_move_to_move(move_));
    new_game.place(move_.shoot, Piece::Arrow);
    new_game.turn = !new_game.turn;
    new_game
}

/// Number of occupied squares among the first `n`.
pub open spec fn occupied_before(squares: Seq<Piece>, n: nat) -> nat
    decreases n,
{
    if n == 0 {
        0
    } else {
        occupied_before(squares, (n - 1) as nat) + if squares[n - 1] != Piece::Nothing {
            1nat
        } else {
            0nat
        }
    }
}

/// Number of occupied squares of the board.
pub open spec fn occupied(pos: Position) -> nat {
    occupied_before(pos.squares, 100)
}

proof fn lemma_occupied_update(squares: Seq<Piece>, s: int, p: Piece, n: nat)
    requires
        0 <= s < squares.len(),
        n <= squares.len(),
    ensures
        occupied_before(squares.update(s, p), n) == occupied_before(squares, n) + if s < n {
            (if p != Piece::Nothing {
                1int
            } else {
                0int
            }) - (if squares[s] != Piece::Nothing {
                1int
            } else {
                0int
            })
        } else {
            0int
        },
    decreases n,
{
    if n > 0 {
        lemma_occupied_update(squares, s, p, (n - 1) as nat);
    }
}

/// A full move fills exactly one more square of the board.
pub proof fn lemma_one_more_occupied(pos: Position, m: FullMove)
    requires
        pos.wf(),
        valid_full_move(pos, m),
    ensures
        occupied(played(pos, m)) == occupied(pos) + 1,
{
    let b0 = pos.squares;
    let b1 = b0.update(m.to.index(), b0[m.from.index()]);
    let b2 = b1.update(m.from.index(), Piece::Nothing);
    let b3 = b2.update(m.shoot.index(), Piece::Arrow);
    lemma_occupied_update(b0, m.to.index(), b0[m.from.index()], 100);
    lemma_occupied_update(b1, m.from.index(), Piece::Nothing, 100);
    lemma_occupied_update(b2, m.shoot.index(), Piece::Arrow, 100);
    assert(played(pos, m).squares == b3);
}

/// A full move leaves every arrow where it is, gives the move to the other
/// side, and keeps the board at its hundred squares.
pub proof fn lemma_arrows_stay(pos: Position, m: FullMove, s: int)
    requires
        pos.wf(),
        valid_full_move(pos, m),
        0 <= s < 100,
        pos.squares[s] == Piece::Arrow,
    ensures
        played(pos, m).squares[s] == Piece::Arrow,
        played(pos, m).turn == !pos.turn,
        played(pos, m).wf(),
{
}

/// Once a full move is played, the relocation cannot be taken back in the
/// position reached: the piece that moved does not belong to the side that
/// is now to move.
pub proof fn lemma_no_way_back(pos: Position, m: FullMove)
    requires
        pos.wf(),
        valid_full_move(pos, m),
    ensures
        !valid_move(played(pos, m), Move { from: m.to, to: m.from }),
{
    assert(played(pos, m).at(m.to) == turn_piece(pos.turn));
}

/// What a legal full move does to the squares, by their positions: a piece
/// of `side` goes from `f` to the empty square `t`, and an arrow lands on
/// `s`, a square other than `t` that is empty once the piece has left `f`.
spec fn is_turn(squares: Seq<Piece>, side: Piece, f: int, t: int, s: int) -> bool {
    &&& squares.len() == 100
    &&& 0 <= f < 100
    &&& 0 <= t < 100
    &&& 0 <= s < 100
    &&& side != Piece::Nothing
    &&& side != Piece::Arrow
    &&& squares[f] == side
    &&& squares[t] == Piece::Nothing
    &&& s != t
    &&& (s == f || squares[s] == Piece::Nothing)
}

/// The squares after the turn.
spec fn after_turn(squares: Seq<Piece>, side: Piece, f: int, t: int, s: int) -> Seq<Piece> {
    squares.update(t, side).update(f, Piece::Nothing).update(s, Piece::Arrow)
}

proof fn lemma_valid_is_turn(pos: Position, m: FullMove)
    requires
        pos.wf(),
        valid_full_move(pos, m),
    ensures
        is_turn(
            pos.squares,
            turn_piece(pos.turn),
            m.from.index(),
            m.to.index(),
            m.shoot.index(),
        ),
        played(pos, m).squares == after_turn(
            pos.squares,
            turn_piece(pos.turn),
            m.from.index(),
            m.to.index(),
            m.shoot.index(),
        ),
        m.from.on_board(),
        m.to.on_board(),
        m.shoot.on_board(),
{
}

proof fn lemma_turns_differ(
    squares: Seq<Piece>,
    side: Piece,
    f1: int,
    t1: int,
    s1: int,
    f2: int,
    t2: int,
    s2: int,
)
    requires
        is_turn(squares, side, f1, t1, s1),
        is_turn(squares, side, f2, t2, s2),
        after_turn(squares, side, f1, t1, s1) == after_turn(squares, side, f2, t2, s2),
    ensures
        f1 == f2,
        t1 == t2,
        s1 == s2,
{
    let a = after_turn(squares, side, f1, t1, s1);
    let b = after_turn(squares, side, f2, t2, s2);
    assert(a[t1] == side);
    assert(b[t1] == side);
    assert(t1 == t2);
    assert(a[s1] == Piece::Arrow);
    assert(b[s1] == Piece::Arrow);
    assert(s1 == s2);
    assert(a[f1] != side);
    assert(b[f1] != side);
}

/// Two legal full moves that lead to the same position are the same move.
pub proof fn lemma_played_injective(pos: Position, first: FullMove, second: FullMove)
    requires
        pos.wf(),
        valid_full_move(pos, first),
        valid_full_move(pos, second),
        played(pos, first) == played(pos, second),
    ensures
        first == second,
{
    lemma_valid_is_turn(pos, first);
    lemma_valid_is_turn(pos, second);
    lemma_turns_differ(
        pos.squares,
        turn_piece(pos.turn),
        first.from.index(),
        first.to.index(),
        first.shoot.index(),
        second.from.index(),
        second.to.index(),
        second.shoot.index(),
    );
    lemma_same_index(first.from, second.from);
    lemma_same_index(first.to, second.to);
    lemma_same_index(first.shoot, second.shoot);
}

proof fn lemma_same_index(a: Coordinate, b: Coordinate)
    requires
        a.on_board(),
        b.on_board(),
        a.index() == b.index(),
    ensures
        a == b,
{
}

} // verus!
