//! Board representation: square contents, coordinates, moves and game states.

use vstd::prelude::*;

verus! {

/// What a square holds.
#[derive(Copy, Clone, PartialEq, Eq, Structural, Hash, Debug)]
pub enum Piece {
    Nothing,
    Black,
    White,
    Arrow,
}

/// A square of the board, by row `y` and column `x`.
#[derive(Copy, Clone, PartialEq, Eq, Structural, Hash, Debug)]
pub struct Coordinate {
    pub y: u8,
    pub x: u8,
}

/// A board and the side to move (`turn` is true when White moves).
///
/// The board is stored row by row: the square at row `y`, column `x` is
/// `board[10 * y + x]`.
#[derive(Copy, Clone, PartialEq, Eq, Hash, Debug)]
pub struct Game {
    pub board: [Piece; 100],
    pub turn: bool,
}

/// A queen-style slide of one piece.
#[derive(Copy, Clone, PartialEq, Eq, Structural, Hash, Debug)]
pub struct Move {
    pub from: Coordinate,
    pub to: Coordinate,
}

/// One turn: a relocation followed by an arrow shot from the new square.
#[derive(Copy, Clone, PartialEq, Eq, Structural, Hash, Debug)]
pub struct FullMove {
    pub from: Coordinate,
    pub to: Coordinate,
    pub shoot: Coordinate,
}

impl Coordinate {
    /// Both components lie on the board.
    pub open spec fn on_board(self) -> bool {
        self.y < 10 && self.x < 10
    }

    /// Position of the square in row-major order.
    pub open spec fn index(self) -> int {
        10 * self.y + self.x
    }

    /// Executable test of `on_board`.
    pub fn is_on_board(self) -> (r: bool)
        ensures
            r == self.on_board(),
    {
        self.y < 10 && self.x < 10
    }
}

/// The mathematical content of a game state: the hundred squares in
/// row-major order, and the side to move.
#[verifier::ext_equal]
pub struct Position {
    pub squares: Seq<Piece>,
    pub turn: bool,
}

impl Position {
    /// Content of the square `c`.
    pub open spec fn at(self, c: Coordinate) -> Piece {
        self.squares[c.index()]
    }

    /// The position has its hundred squares.
    pub open spec fn wf(self) -> bool {
        self.squares.len() == 100
    }
}

impl View for Game {
    type V = Position;

    open spec fn view(&self) -> Position {
        Position { squares: self.board@, turn: self.turn }
    }
}

impl Game {
    /// Content of the square `c`.
    pub fn piece_at(&self, c: Coordinate) -> (p: Piece)
        requires
            c.on_board(),
        ensures
            p == self@.at(c),
    {
        self.board[(10 * (c.y as usize) + (c.x as usize))]
    }

    /// Overwrites the content of the square `c`.
    pub fn place(&mut self, c: Coordinate, p: Piece)
        requires
            c.on_board(),
        ensures
            final(self)@.squares == old(self)@.squares.update(c.index(), p),
            final(self)@.turn == old(self)@.turn,
    {
        self.board[(10 * (c.y as usize) + (c.x as usize))] = p;
    }
}

/// Two game states with the same content are the same state.
pub proof fn lemma_game_determined_by_view(a: Game, b: Game)
    requires
        a@ == b@,
    ensures
        a == b,
{
    assert(a.board@ == b.board@);
    assert(a.board =~= b.board);
}

/// The piece colour of the other side; squares that hold no piece have none.
pub open spec fn opposite(piece: Piece) -> Piece {
    match piece {
        Piece::White => Piece::Black,
        Piece::Black => Piece::White,
        _ => Piece::Nothing,
    }
}

/// The colour that plays against `piece`.
pub fn opposite_piece(piece: Piece) -> (r: Piece)
    ensures
        r == opposite(piece),
{
    match piece {
        Piece::White => Piece::Black,
        Piece::Black => Piece::White,
        _ => Piece::Nothing,
    }
}

/// The colour of the side to move: White when `turn` is true.
pub open spec fn turn_piece(turn: bool) -> Piece {
    if turn {
        Piece::White
    } else {
        Piece::Black
    }
}

/// The colour of the side to move.
pub fn turn_to_piece(turn: bool) -> (r: Piece)
    ensures
        r == turn_piece(turn),
{
    if turn {
        Piece::White
    } else {
        Piece::Black
    }
}

/// The digit that encodes a square content: 0 empty, 1 White, 2 Black, 3 arrow.
pub open spec fn piece_code(piece: Piece) -> u8 {
    match piece {
        Piece::Nothing => 0,
        Piece::White => 1,
        Piece::Black => 2,
        Piece::Arrow => 3,
    }
}

/// Encodes a square content as its digit.
pub fn piece_to_int(piece: Piece) -> (r: u8)
    ensures
        r == piece_code(piece),
{
    match piece {
        Piece::Nothing => 0,
        Piece::White => 1,
        Piece::Black => 2,
        Piece::Arrow => 3,
    }
}

/// Decodes a square content; values above 3 encode nothing and are refused.
pub fn int_to_piece(i: u8) -> (r: Option<Piece>)
    ensures
        i > 3 <==> r is None,
        r matches Some(p) ==> piece_code(p) == i,
{
    if i == 0 {
        Some(Piece::Nothing)
    } else if i == 1 {
        Some(Piece::White)
    } else if i == 2 {
        Some(Piece::Black)
    } else if i == 3 {
        Some(Piece::Arrow)
    } else {
        None
    }
}

/// The relocation part of a full move.
pub fn full_move_to_move(full_move: FullMove) -> (m: Move)
    ensures
        m.from == full_move.from,
        m.to == full_move.to,
{
    Move { from: full_move.from, to: full_move.to }
}

/// The shot of a full move, as a slide from the piece's new square.
pub fn full_move_to_shoot_move(full_move: FullMove) -> (m: Move)
    ensures
        m.from == full_move.to,
        m.to == full_move.shoot,
{
    Move { from: full_move.to, to: full_move.shoot }
}

/// The board without any piece, White to move.
pub fn empty_game() -> (game: Game)
    ensures
        game@.turn,
        forall|i: int| 0 <= i < 100 ==> game@.squares[i] == Piece::Nothing,
{
    Game { board: [Piece::Nothing;100], turn: true }
}

/// Content of square `i` (row-major) in the starting position.
pub open spec fn start_square(i: int) -> Piece {
    if i == 3 || i == 6 || i == 30 || i == 39 {
        Piece::Black
    } else if i == 93 || i == 96 || i == 60 || i == 69 {
        Piece::White
    } else {
        Piece::Nothing
    }
}

/// The starting position: four pieces a side, no arrow, White to move.
pub fn start_game() -> (game: Game)
    ensures
        game@.turn,
        forall|i: int| 0 <= i < 100 ==> game@.squares[i] == start_square(i),
{
    let mut game = empty_game();
    game.place(Coordinate { y: 0, x: 3 }, Piece::Black);
    game.place(Coordinate { y: 0, x: 6 }, Piece::Black);
    game.place(Coordinate { y: 3, x: 0 }, Piece::Black);
    game.place(Coordinate { y: 3, x: 9 }, Piece::Black);
    game.place(Coordinate { y: 9, x: 3 }, Piece::White);
    game.place(Coordinate { y: 9, x: 6 }, Piece::White);
    game.place(Coordinate { y: 6, x: 0 }, Piece::White);
    game.place(Coordinate { y: 6, x: 9 }, Piece::White);
    game
}

/// The board after the content of `from` has been carried to `to`:
/// `to` takes what `from` held, then `from` is emptied.
pub open spec fn moved_board(board: Seq<Piece>, from: Coordinate, to: Coordinate) -> Seq<Piece> {
    board.update(to.index(), board[from.index()]).update(from.index(), Piece::Nothing)
}

/// The position after a relocation, with the same side to move.
pub open spec fn relocated(pos: Position, from: Coordinate, to: Coordinate) -> Position {
    Position { squares: moved_board(pos.squares, from, to), turn: pos.turn }
}

/// Relocates whatever stands on `move_.from` to `move_.to`, without any
/// test of legality; the side to move is unchanged.
pub fn move_piece(game: Game, move_: Move) -> (new_game: Game)
    requires
        move_.from.on_board(),
        move_.to.on_board(),
    ensures
        new_game@ == relocated(game@, move_.from, move_.to),
{
    let mut new_game = game;
    let carried = game.piece_at(move_.from);
    new_game.place(move_.to, carried);
    new_game.place(move_.from, Piece::Nothing);
    new_game
}

} // verus!
