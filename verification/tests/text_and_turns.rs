use amazons::board::{empty_game, start_game, Coordinate, FullMove, Game, Piece};
use amazons::evaluate::full_evaluation;
use amazons::memo::obstruction_AI_alpha_beta_hashmap;
use amazons::notation::{
    game_to_string, piece_symbol, string_to_game, symbol_piece, turn_string_to_bool, ParseError,
};
use amazons::protocol::{answer_request, format_reply, parse_request, strip_separators, REQUEST_BUDGET};
use amazons::rules::{is_valid_full_move, play_move};
use amazons::search::FullMoveEvaluation;
use amazons::selfplay::play_turn;
use amazons::terminal::is_over;

const START_TEXT: &str = "0002002000000000000000000000002000000002000000000000000000001000000001000000000000000000000001001000";

fn at(y: u8, x: u8) -> Coordinate {
    Coordinate { y, x }
}

fn full(from: (u8, u8), to: (u8, u8), shoot: (u8, u8)) -> FullMove {
    FullMove { from: at(from.0, from.1), to: at(to.0, to.1), shoot: at(shoot.0, shoot.1) }
}

fn pocket(turn: bool) -> Game {
    let mut game = empty_game();
    game.turn = turn;
    for i in 0..100u8 {
        let (y, x) = (i / 10, i % 10);
        let piece = if y < 3 && x < 4 { Piece::Nothing } else { Piece::Arrow };
        game.place(at(y, x), piece);
    }
    game.place(at(0, 0), Piece::White);
    game.place(at(0, 1), Piece::Black);
    game
}

/// The request for `game` as a client writes it: the turn marker, then the
/// squares as a bracketed list.
fn request_for(game: Game) -> String {
    let text = game_to_string(game);
    let cells: Vec<String> = text.chars().take(100).map(|c| c.to_string()).collect();
    let marker = if game.turn { "0" } else { "1" };
    format!("{}[{}]", marker, cells.join(", "))
}

#[test]
fn start_position_as_text() {
    let text = game_to_string(start_game());
    assert_eq!(text, format!("{}0", START_TEXT));
    let mut black_to_move = start_game();
    black_to_move.turn = false;
    assert_eq!(game_to_string(black_to_move), format!("{}1", START_TEXT));
}

#[test]
fn text_of_the_start_position_reads_back() {
    let game = start_game();
    assert_eq!(string_to_game(game_to_string(game)), Ok(game));
}

#[test]
fn text_reads_back_for_any_state() {
    let mut game = start_game();
    let moves = [
        full((9, 3), (4, 3), (4, 8)),
        full((0, 6), (5, 6), (5, 4)),
        full((6, 0), (6, 5), (6, 0)),
    ];
    for m in moves {
        assert!(is_valid_full_move(game, m));
        game = play_move(game, m);
        let text = game_to_string(game);
        assert_eq!(text.len(), 101);
        assert_eq!(string_to_game(text), Ok(game));
    }
    assert_eq!(string_to_game(game_to_string(pocket(false))), Ok(pocket(false)));
}

#[test]
fn symbols_of_squares() {
    assert_eq!(piece_symbol(Piece::Nothing), "0");
    assert_eq!(piece_symbol(Piece::White), "1");
    assert_eq!(piece_symbol(Piece::Black), "2");
    assert_eq!(piece_symbol(Piece::Arrow), "3");
    assert_eq!(symbol_piece('0'), Some(Piece::Nothing));
    assert_eq!(symbol_piece('1'), Some(Piece::White));
    assert_eq!(symbol_piece('2'), Some(Piece::Black));
    assert_eq!(symbol_piece('3'), Some(Piece::Arrow));
    assert_eq!(symbol_piece('4'), None);
    assert_eq!(symbol_piece(' '), None);
}

#[test]
fn text_of_wrong_length_is_refused() {
    assert_eq!(string_to_game(String::new()), Err(ParseError::WrongLength));
    assert_eq!(string_to_game(START_TEXT.to_string()), Err(ParseError::WrongLength));
    assert_eq!(string_to_game(format!("{}00", START_TEXT)), Err(ParseError::WrongLength));
    assert_eq!(string_to_game(format!("{}0\n", START_TEXT)), Err(ParseError::WrongLength));
}

#[test]
fn text_with_a_bad_square_is_refused() {
    let mut text = format!("{}0", START_TEXT);
    text.replace_range(50..51, "4");
    assert_eq!(string_to_game(text), Err(ParseError::InvalidCell));
    let mut text = format!("{}0", START_TEXT);
    text.replace_range(0..1, "x");
    assert_eq!(string_to_game(text), Err(ParseError::InvalidCell));
    let mut text = format!("{}0", START_TEXT);
    text.replace_range(99..100, "-");
    assert_eq!(string_to_game(text), Err(ParseError::InvalidCell));
    // the length is looked at first
    assert_eq!(string_to_game("9".to_string()), Err(ParseError::WrongLength));
}

#[test]
fn any_turn_marker_but_zero_gives_the_move_to_black() {
    for marker in ["1", "2", "x", "-"] {
        let game = string_to_game(format!("{}{}", START_TEXT, marker)).unwrap();
        assert!(!game.turn);
        assert_eq!(game.board, start_game().board);
    }
    assert!(string_to_game(format!("{}0", START_TEXT)).unwrap().turn);
}

#[test]
fn turn_markers() {
    assert!(turn_string_to_bool("0"));
    assert!(!turn_string_to_bool("1"));
    assert!(!turn_string_to_bool(""));
    assert!(!turn_string_to_bool("00"));
    assert!(!turn_string_to_bool("x"));
    assert!(!turn_string_to_bool(" 0"));
}

#[test]
fn separators_are_taken_out() {
    assert_eq!(strip_separators("0[1, 2,3]"), "0123");
    assert_eq!(strip_separators("[[ ,,]] "), "");
    assert_eq!(strip_separators("a-b\n"), "a-b\n");
    assert_eq!(strip_separators(""), "");
}

#[test]
fn request_holds_the_turn_marker_first() {
    assert_eq!(parse_request(&request_for(start_game())), Ok(start_game()));
    let mut black_to_move = start_game();
    black_to_move.turn = false;
    assert_eq!(parse_request(&request_for(black_to_move)), Ok(black_to_move));
    assert_eq!(parse_request(&format!("0{}", START_TEXT)), Ok(start_game()));
    assert_eq!(parse_request(&format!("7{}", START_TEXT)), Ok(black_to_move));
    assert_eq!(parse_request(&request_for(pocket(true))), Ok(pocket(true)));
}

#[test]
fn malformed_requests_are_refused() {
    assert_eq!(parse_request(""), Err(ParseError::WrongLength));
    assert_eq!(parse_request("[, ]"), Err(ParseError::WrongLength));
    assert_eq!(parse_request("0"), Err(ParseError::WrongLength));
    assert_eq!(parse_request(START_TEXT), Err(ParseError::WrongLength));
    assert_eq!(parse_request(&format!("0{}0", START_TEXT)), Err(ParseError::WrongLength));
    assert_eq!(parse_request(&format!("0{}\n", START_TEXT)), Err(ParseError::WrongLength));
    let bad = format!("0{}", START_TEXT.replace('2', "5"));
    assert_eq!(parse_request(&bad), Err(ParseError::InvalidCell));
    let bad = format!("0{}", START_TEXT.replacen('0', ";", 1));
    assert_eq!(parse_request(&bad), Err(ParseError::InvalidCell));
    assert_eq!(answer_request("0[1,2,3]"), Err(ParseError::WrongLength));
    assert_eq!(answer_request(&bad), Err(ParseError::InvalidCell));
}

#[test]
fn reply_names_column_before_row() {
    let evaluation = FullMoveEvaluation { full_move: full((9, 3), (4, 3), (4, 8)), score: 57 };
    assert_eq!(format_reply(evaluation), "(3,9) (3,4) (8,4) My evaluation of this is 57");
    let evaluation = FullMoveEvaluation { full_move: full((0, 0), (0, 0), (0, 0)), score: -100000 };
    assert_eq!(format_reply(evaluation), "(0,0) (0,0) (0,0) My evaluation of this is -100000");
    let evaluation = FullMoveEvaluation { full_move: full((1, 2), (3, 4), (5, 6)), score: 0 };
    assert_eq!(format_reply(evaluation), "(2,1) (4,3) (6,5) My evaluation of this is 0");
    let evaluation = FullMoveEvaluation { full_move: full((1, 2), (3, 4), (5, 6)), score: i32::MIN };
    assert_eq!(format_reply(evaluation), "(2,1) (4,3) (6,5) My evaluation of this is -2147483648");
    let evaluation = FullMoveEvaluation { full_move: full((10, 255), (3, 4), (5, 6)), score: i32::MAX };
    assert_eq!(format_reply(evaluation), "(255,10) (4,3) (6,5) My evaluation of this is 2147483647");
}

#[test]
fn request_for_the_start_position_is_answered() {
    let line = request_for(start_game());
    assert!(line.starts_with("0[0, 0, 0, 2, 0, 0, 2, 0"));
    let reply = answer_request(&line).unwrap();
    let parts: Vec<&str> = reply.split(' ').collect();
    assert_eq!(parts.len(), 9);
    let mut squares = Vec::new();
    for part in &parts[..3] {
        assert!(part.starts_with('(') && part.ends_with(')'));
        let inner: Vec<&str> = part[1..part.len() - 1].split(',').collect();
        assert_eq!(inner.len(), 2);
        let x: u8 = inner[0].parse().unwrap();
        let y: u8 = inner[1].parse().unwrap();
        assert!(x < 10 && y < 10);
        squares.push(Coordinate { y, x });
    }
    assert_eq!(parts[3..8].join(" "), "My evaluation of this is");
    let score: i32 = parts[8].parse().unwrap();
    assert!(-100000 < score && score < 100000);
    let named = FullMove { from: squares[0], to: squares[1], shoot: squares[2] };
    assert!(is_valid_full_move(start_game(), named));
    let expected = obstruction_AI_alpha_beta_hashmap(start_game(), REQUEST_BUDGET);
    assert_eq!(reply, format_reply(expected));
    assert_eq!(REQUEST_BUDGET, 10000);
    // the same request written without spaces
    let dense = line.replace(' ', "");
    assert!(dense.starts_with("0[0,0,0,2,0,0,2,0,0,0,0,"));
    assert_eq!(answer_request(&dense), Ok(reply));
}

#[test]
fn request_for_a_finished_game_is_answered_with_the_sentinel() {
    let mut game = pocket(true);
    game.place(at(1, 0), Piece::Arrow);
    game.place(at(1, 1), Piece::Arrow);
    // White stands in the corner with Black beside it and arrows below
    assert!(is_over(game).over);
    let reply = answer_request(&request_for(game)).unwrap();
    assert_eq!(reply, "(0,0) (0,0) (0,0) My evaluation of this is -100000");
}

#[test]
fn a_turn_of_self_play() {
    let game = pocket(true);
    let report = play_turn(game).unwrap();
    let choice = obstruction_AI_alpha_beta_hashmap(game, REQUEST_BUDGET);
    assert_eq!(report.choice, choice);
    assert_eq!(report.game, play_move(game, choice.full_move));
    assert_eq!(report.evaluation, full_evaluation(report.game, Piece::White));
    assert_eq!(report.status, is_over(report.game));
    assert!(!report.game.turn);
}

#[test]
fn self_play_ends_with_a_winner() {
    let mut game = pocket(false);
    let mut status = is_over(game);
    let mut turns = 0;
    while !status.over {
        let report = play_turn(game).unwrap();
        assert_eq!(report.game.turn, !game.turn);
        game = report.game;
        status = report.status;
        turns += 1;
        assert!(turns <= 10);
    }
    assert_eq!(status, is_over(game));
    assert!(turns >= 2);
    // nothing is played once the game is over
    assert!(play_turn(game).is_none());
}
