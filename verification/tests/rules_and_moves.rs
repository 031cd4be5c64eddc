use amazons::board::{
    empty_game, full_move_to_move, full_move_to_shoot_move, int_to_piece, move_piece,
    opposite_piece, piece_to_int, start_game, turn_to_piece, Coordinate, FullMove, Game, Move,
    Piece,
};
use amazons::movegen::{can_move, find_possible_moves, find_possible_moves_side};
use amazons::rules::{is_valid_full_move, is_valid_move, play_move};
use amazons::terminal::is_over;

fn at(y: u8, x: u8) -> Coordinate {
    Coordinate { y, x }
}

/// Builds a game from ten rows of ten characters: `.` empty, `W`, `B`, `A`.
fn game_from(rows: [&str; 10], turn: bool) -> Game {
    let mut game = empty_game();
    game.turn = turn;
    for (y, row) in rows.iter().enumerate() {
        assert_eq!(row.len(), 10);
        for (x, c) in row.chars().enumerate() {
            let piece = match c {
                '.' => Piece::Nothing,
                'W' => Piece::White,
                'B' => Piece::Black,
                'A' => Piece::Arrow,
                _ => panic!("unknown square"),
            };
            game.place(at(y as u8, x as u8), piece);
        }
    }
    game
}

fn corridor(turn: bool) -> Game {
    game_from(
        [
            "W..BAAAAAA",
            ".AAAAAAAAA",
            "AAAAAAAAAA",
            "AAAAAAAAAA",
            "AAAAAAAAAA",
            "AAAAAAAAAA",
            "AAAAAAAAAA",
            "AAAAAAAAAA",
            "AAAAAAAAAA",
            "AAAAAAAAAA",
        ],
        turn,
    )
}

fn two_pieces() -> Game {
    let mut game = empty_game();
    game.place(at(0, 3), Piece::Black);
    game.place(at(9, 6), Piece::White);
    game
}

fn full(from: (u8, u8), to: (u8, u8), shoot: (u8, u8)) -> FullMove {
    FullMove { from: at(from.0, from.1), to: at(to.0, to.1), shoot: at(shoot.0, shoot.1) }
}

#[test]
fn piece_codes_round_trip() {
    assert_eq!(piece_to_int(Piece::Nothing), 0);
    assert_eq!(piece_to_int(Piece::White), 1);
    assert_eq!(piece_to_int(Piece::Black), 2);
    assert_eq!(piece_to_int(Piece::Arrow), 3);
    for code in 0..4u8 {
        assert_eq!(piece_to_int(int_to_piece(code).unwrap()), code);
    }
    assert_eq!(int_to_piece(4), None);
    assert_eq!(int_to_piece(255), None);
}

#[test]
fn sides_and_turns() {
    assert_eq!(opposite_piece(Piece::White), Piece::Black);
    assert_eq!(opposite_piece(Piece::Black), Piece::White);
    assert_eq!(opposite_piece(Piece::Arrow), Piece::Nothing);
    assert_eq!(opposite_piece(Piece::Nothing), Piece::Nothing);
    assert_eq!(turn_to_piece(true), Piece::White);
    assert_eq!(turn_to_piece(false), Piece::Black);
}

#[test]
fn full_move_parts() {
    let m = full((6, 0), (5, 1), (4, 2));
    assert_eq!(full_move_to_move(m), Move { from: at(6, 0), to: at(5, 1) });
    assert_eq!(full_move_to_shoot_move(m), Move { from: at(5, 1), to: at(4, 2) });
}

#[test]
fn start_position_layout() {
    let game = start_game();
    assert!(game.turn);
    let black = [(0, 3), (0, 6), (3, 0), (3, 9)];
    let white = [(9, 3), (9, 6), (6, 0), (6, 9)];
    for y in 0..10u8 {
        for x in 0..10u8 {
            let expected = if black.contains(&(y, x)) {
                Piece::Black
            } else if white.contains(&(y, x)) {
                Piece::White
            } else {
                Piece::Nothing
            };
            assert_eq!(game.piece_at(at(y, x)), expected);
        }
    }
    assert_eq!(empty_game().board, [Piece::Nothing; 100]);
    assert!(empty_game().turn);
}

#[test]
fn move_piece_overwrites_without_checking() {
    let game = start_game();
    let moved = move_piece(game, Move { from: at(9, 3), to: at(0, 3) });
    assert_eq!(moved.piece_at(at(9, 3)), Piece::Nothing);
    assert_eq!(moved.piece_at(at(0, 3)), Piece::White);
    assert_eq!(moved.turn, game.turn);
    let emptied = move_piece(game, Move { from: at(9, 3), to: at(9, 3) });
    assert_eq!(emptied.piece_at(at(9, 3)), Piece::Nothing);
}

#[test]
fn slides_from_lone_white_piece() {
    let game = two_pieces();
    let moves = find_possible_moves(game, at(9, 6));
    let targets: Vec<Coordinate> = moves.iter().map(|m| m.to).collect();
    assert!(targets.contains(&at(9, 5)));
    assert!(targets.contains(&at(8, 6)));
    assert!(targets.contains(&at(8, 5)));
    assert_eq!(moves.len(), 27);
    for m in &moves {
        assert_eq!(m.from, at(9, 6));
    }
    let expected_start = [at(8, 5), at(7, 4), at(6, 3), at(5, 2), at(4, 1), at(3, 0), at(8, 6)];
    assert_eq!(&targets[..7], &expected_start[..]);
    assert_eq!(targets[26], at(9, 9));
}

#[test]
fn slides_stop_before_occupied_squares() {
    let game = start_game();
    let moves = find_possible_moves(game, at(9, 3));
    let targets: Vec<Coordinate> = moves.iter().map(|m| m.to).collect();
    // leftwards along the bottom row, and rightwards up to the piece on (9,6)
    assert!(targets.contains(&at(9, 0)));
    assert!(targets.contains(&at(9, 5)));
    assert!(!targets.contains(&at(9, 6)));
    assert!(!targets.contains(&at(9, 7)));
    // the diagonal towards (6,0) ends before that piece
    assert!(targets.contains(&at(7, 1)));
    assert!(!targets.contains(&at(6, 0)));
    // upwards the column is free up to the black piece on (0,3)
    assert!(targets.contains(&at(1, 3)));
    assert!(!targets.contains(&at(0, 3)));
    for m in &moves {
        assert_eq!(game.piece_at(m.to), Piece::Nothing);
    }
}

#[test]
fn generated_slides_are_exactly_the_valid_moves() {
    for game in [start_game(), corridor(true), two_pieces()] {
        for y in 0..10u8 {
            for x in 0..10u8 {
                if game.piece_at(at(y, x)) != Piece::White {
                    continue;
                }
                let moves = find_possible_moves(game, at(y, x));
                for ty in 0..10u8 {
                    for tx in 0..10u8 {
                        let m = Move { from: at(y, x), to: at(ty, tx) };
                        assert_eq!(moves.contains(&m), is_valid_move(game, m));
                    }
                }
            }
        }
    }
}

#[test]
fn valid_move_rules() {
    let game = start_game();
    // a straight slide, a diagonal slide
    assert!(is_valid_move(game, Move { from: at(9, 3), to: at(5, 3) }));
    assert!(is_valid_move(game, Move { from: at(9, 3), to: at(7, 5) }));
    // not a queen line
    assert!(!is_valid_move(game, Move { from: at(9, 3), to: at(7, 4) }));
    // no displacement
    assert!(!is_valid_move(game, Move { from: at(9, 3), to: at(9, 3) }));
    // the other side's piece, an empty origin
    assert!(!is_valid_move(game, Move { from: at(0, 3), to: at(1, 3) }));
    assert!(!is_valid_move(game, Move { from: at(5, 5), to: at(5, 6) }));
    // occupied destination
    assert!(!is_valid_move(game, Move { from: at(9, 3), to: at(9, 6) }));
    // off the board
    assert!(!is_valid_move(game, Move { from: at(9, 3), to: at(10, 3) }));
    assert!(!is_valid_move(game, Move { from: at(9, 3), to: at(9, 10) }));
    assert!(!is_valid_move(game, Move { from: at(12, 3), to: at(9, 3) }));
}

#[test]
fn a_slide_may_not_pass_over_a_piece_in_any_direction() {
    // vertical: the black piece on (3,0) stands between (6,0) and (1,0)
    let game = start_game();
    assert!(is_valid_move(game, Move { from: at(6, 0), to: at(4, 0) }));
    assert!(!is_valid_move(game, Move { from: at(6, 0), to: at(1, 0) }));
    // horizontal: the piece on (9,6) stands between (9,3) and (9,8)
    assert!(!is_valid_move(game, Move { from: at(9, 3), to: at(9, 8) }));
    // diagonal: an arrow on (7,5)
    let mut blocked = start_game();
    blocked.place(at(7, 5), Piece::Arrow);
    assert!(is_valid_move(blocked, Move { from: at(9, 3), to: at(8, 4) }));
    assert!(!is_valid_move(blocked, Move { from: at(9, 3), to: at(6, 6) }));
}

#[test]
fn full_move_may_shoot_at_the_vacated_square() {
    let game = start_game();
    let m = full((9, 3), (8, 3), (9, 3));
    assert!(is_valid_full_move(game, m));
    let after = play_move(game, m);
    assert_eq!(after.piece_at(at(9, 3)), Piece::Arrow);
    assert_eq!(after.piece_at(at(8, 3)), Piece::White);
    assert!(!after.turn);
}

#[test]
fn full_move_rules() {
    let game = start_game();
    assert!(is_valid_full_move(game, full((9, 3), (5, 3), (5, 9))));
    // the shot must be a slide from the new square
    assert!(!is_valid_full_move(game, full((9, 3), (5, 3), (6, 5))));
    // the shot may not land on a piece or pass over one
    assert!(!is_valid_full_move(game, full((9, 3), (5, 3), (0, 3))));
    assert!(!is_valid_full_move(game, full((9, 3), (9, 4), (9, 7))));
    // the relocation itself must be legal
    assert!(!is_valid_full_move(game, full((9, 3), (9, 6), (9, 5))));
    assert!(!is_valid_full_move(game, full((0, 3), (1, 3), (2, 3))));
}

#[test]
fn playing_a_move_relocates_shoots_and_passes_the_turn() {
    let game = start_game();
    let m = full((6, 0), (6, 5), (2, 5));
    let after = play_move(game, m);
    assert_eq!(after.piece_at(at(6, 0)), Piece::Nothing);
    assert_eq!(after.piece_at(at(6, 5)), Piece::White);
    assert_eq!(after.piece_at(at(2, 5)), Piece::Arrow);
    assert!(!after.turn);
    let mut changed = 0;
    let mut occupied_before = 0;
    let mut occupied_after = 0;
    for i in 0..100 {
        if game.board[i] != after.board[i] {
            changed += 1;
        }
        if game.board[i] != Piece::Nothing {
            occupied_before += 1;
        }
        if after.board[i] != Piece::Nothing {
            occupied_after += 1;
        }
    }
    assert_eq!(changed, 3);
    assert_eq!(occupied_after, occupied_before + 1);
    // the state handed in is a value of its own and is unchanged
    assert_eq!(game, start_game());
}

#[test]
fn the_relocation_cannot_be_taken_back() {
    let game = start_game();
    let m = full((9, 3), (8, 3), (9, 3));
    let after = play_move(game, m);
    let back = Move { from: at(8, 3), to: at(9, 3) };
    assert!(!is_valid_move(after, back));
    // not even with the move given back to the side that moved: the arrow
    // stands on the square that the piece came from
    let mut again = after;
    again.turn = game.turn;
    assert!(!is_valid_move(again, back));
    // and an arrow on the way blocks the way back too
    let m = full((9, 3), (6, 3), (8, 3));
    let mut again = play_move(game, m);
    again.turn = game.turn;
    assert!(!is_valid_move(again, Move { from: at(6, 3), to: at(9, 3) }));
}

#[test]
fn full_moves_of_the_corridor_in_order() {
    let game = corridor(true);
    let white = find_possible_moves_side(game, Piece::White);
    let expected = vec![
        full((0, 0), (0, 1), (0, 0)),
        full((0, 0), (0, 1), (0, 2)),
        full((0, 0), (0, 1), (1, 0)),
        full((0, 0), (0, 2), (0, 1)),
        full((0, 0), (0, 2), (0, 0)),
        full((0, 0), (1, 0), (0, 0)),
        full((0, 0), (1, 0), (0, 1)),
    ];
    assert_eq!(white, expected);
    let black = find_possible_moves_side(game, Piece::Black);
    let expected = vec![
        full((0, 3), (0, 2), (0, 1)),
        full((0, 3), (0, 2), (0, 3)),
        full((0, 3), (0, 1), (0, 2)),
        full((0, 3), (0, 1), (0, 3)),
        full((0, 3), (0, 1), (1, 0)),
    ];
    assert_eq!(black, expected);
}

#[test]
fn start_position_has_2176_full_moves_a_side() {
    let game = start_game();
    assert_eq!(find_possible_moves_side(game, Piece::White).len(), 2176);
    assert_eq!(find_possible_moves_side(game, Piece::Black).len(), 2176);
    assert_eq!(find_possible_moves_side(game, Piece::Arrow).len(), 0);
}

#[test]
fn generated_full_moves_are_exactly_the_legal_ones() {
    for game in [corridor(true), corridor(false), two_pieces()] {
        let side = turn_to_piece(game.turn);
        let moves = find_possible_moves_side(game, side);
        for m in &moves {
            assert!(is_valid_full_move(game, *m));
            assert_eq!(game.piece_at(m.to), Piece::Nothing);
        }
        let mut legal = 0;
        for f in 0..100u8 {
            if game.board[f as usize] != side {
                continue;
            }
            for t in 0..100u8 {
                for s in 0..100u8 {
                    let m = full((f / 10, f % 10), (t / 10, t % 10), (s / 10, s % 10));
                    if is_valid_full_move(game, m) {
                        legal += 1;
                        assert!(moves.contains(&m));
                    }
                }
            }
        }
        assert_eq!(legal, moves.len());
    }
}

#[test]
fn can_move_tells_free_pieces_from_boxed_ones() {
    let game = corridor(true);
    assert!(can_move(game, at(0, 0)));
    assert!(can_move(game, at(0, 3)));
    assert!(!can_move(game, at(5, 5)));
    let mut boxed = game;
    boxed.place(at(0, 1), Piece::Arrow);
    boxed.place(at(1, 0), Piece::Arrow);
    assert!(!can_move(boxed, at(0, 0)));
}

#[test]
fn game_goes_on_while_both_sides_can_move() {
    let status = is_over(start_game());
    assert!(!status.over);
    assert!(!status.winner);
    let status = is_over(corridor(false));
    assert!(!status.over);
}

#[test]
fn a_stuck_side_loses_whoever_is_to_move() {
    let mut game = corridor(true);
    game.place(at(0, 1), Piece::Arrow);
    game.place(at(1, 0), Piece::Arrow);
    // White is boxed in, Black can still go to (0,2)
    for turn in [true, false] {
        game.turn = turn;
        let status = is_over(game);
        assert!(status.over);
        assert!(!status.winner);
        assert!(find_possible_moves_side(game, Piece::White).is_empty());
        assert!(!find_possible_moves_side(game, Piece::Black).is_empty());
    }
    let mut game = corridor(true);
    game.place(at(0, 2), Piece::Arrow);
    // now Black is boxed in, White can still move
    let status = is_over(game);
    assert!(status.over);
    assert!(status.winner);
}

#[test]
fn when_nobody_can_move_white_is_the_winner() {
    let mut game = corridor(true);
    game.place(at(0, 1), Piece::Arrow);
    game.place(at(0, 2), Piece::Arrow);
    game.place(at(1, 0), Piece::Arrow);
    let status = is_over(game);
    assert!(status.over);
    assert!(status.winner);
}

#[test]
fn over_matches_empty_move_lists() {
    let mut boxed = corridor(true);
    boxed.place(at(0, 1), Piece::Arrow);
    boxed.place(at(1, 0), Piece::Arrow);
    for game in [start_game(), corridor(true), boxed, two_pieces()] {
        let white = find_possible_moves_side(game, Piece::White);
        let black = find_possible_moves_side(game, Piece::Black);
        assert_eq!(is_over(game).over, white.is_empty() || black.is_empty());
    }
}
