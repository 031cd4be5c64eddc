use amazons::alpha_beta::{alpha_beta, obstruction_AI_alpha_beta};
use amazons::best_first::{monte_carlo, obstruction_AI_monte_carlo, rank_moves};
use amazons::board::{empty_game, opposite_piece, start_game, turn_to_piece, Coordinate, FullMove, Game, Piece};
use amazons::cache::{Cache, GamePerspective};
use amazons::evaluate::{area_control_evaluation, full_evaluation};
use amazons::flood::distances;
use amazons::greedy::{basic_AI, obstruction_AI};
use amazons::hybrid::obstruction_AI_hybrid;
use amazons::memo::{alpha_beta_hashmap, alpha_beta_hashmap_wrapper, obstruction_AI_alpha_beta_hashmap};
use amazons::movegen::find_possible_moves_side;
use amazons::random::{pick_full_move, random_full_move};
use amazons::rules::{is_valid_full_move, play_move};
use amazons::search::{exceeds_budget, no_move, power, FullMoveEvaluation, SEARCH_DEPTH, WIN_SCORE};
use amazons::terminal::is_over;

fn at(y: u8, x: u8) -> Coordinate {
    Coordinate { y, x }
}

fn full(from: (u8, u8), to: (u8, u8), shoot: (u8, u8)) -> FullMove {
    FullMove { from: at(from.0, from.1), to: at(to.0, to.1), shoot: at(shoot.0, shoot.1) }
}

/// Builds a game from ten rows of ten characters: `.` empty, `W`, `B`, `A`.
fn game_from(rows: [&str; 10], turn: bool) -> Game {
    let mut game = empty_game();
    game.turn = turn;
    for (y, row) in rows.iter().enumerate() {
        assert_eq!(row.len(), 10);
        for (x, c) in row.chars().enumerate() {
            let piece = match c {
                '.' => Piece::Nothing,
                'W' => Piece::White,
                'B' => Piece::Black,
                'A' => Piece::Arrow,
                _ => panic!("unknown square"),
            };
            game.place(at(y as u8, x as u8), piece);
        }
    }
    game
}

fn corridor(turn: bool) -> Game {
    game_from(
        [
            "W..BAAAAAA",
            ".AAAAAAAAA",
            "AAAAAAAAAA",
            "AAAAAAAAAA",
            "AAAAAAAAAA",
            "AAAAAAAAAA",
            "AAAAAAAAAA",
            "AAAAAAAAAA",
            "AAAAAAAAAA",
            "AAAAAAAAAA",
        ],
        turn,
    )
}

fn pocket(turn: bool) -> Game {
    game_from(
        [
            "WB..AAAAAA",
            "....AAAAAA",
            "....AAAAAA",
            "AAAAAAAAAA",
            "AAAAAAAAAA",
            "AAAAAAAAAA",
            "AAAAAAAAAA",
            "AAAAAAAAAA",
            "AAAAAAAAAA",
            "AAAAAAAAAA",
        ],
        turn,
    )
}

fn white_boxed_in() -> Game {
    let mut game = corridor(true);
    game.place(at(0, 1), Piece::Arrow);
    game.place(at(1, 0), Piece::Arrow);
    game
}

fn small_games() -> Vec<Game> {
    vec![corridor(true), corridor(false), pocket(true), pocket(false)]
}

/// The minimax value, written out plainly: no window, no cutoff.
fn plain_minimax(game: Game, piece: Piece, budget: usize, depth: u8, maximizing: bool) -> i32 {
    let status = is_over(game);
    if status.over {
        return if turn_to_piece(status.winner) == piece { 100000 } else { -100000 };
    }
    let moves = find_possible_moves_side(game, turn_to_piece(game.turn));
    let mut depth = depth;
    while depth > 0 && (moves.len() as u128).pow(depth as u32) > budget as u128 {
        depth -= 1;
    }
    if depth == 0 {
        return full_evaluation(game, piece);
    }
    let mut best = if maximizing { -100000 } else { 100000 };
    for m in moves {
        let value = plain_minimax(play_move(game, m), piece, budget, depth - 1, !maximizing);
        if maximizing {
            best = best.max(value);
        } else {
            best = best.min(value);
        }
    }
    best
}

#[test]
fn distance_field_of_the_corridor() {
    let game = corridor(true);
    let white = distances(game, Piece::White);
    let black = distances(game, Piece::Black);
    for i in 0..100 {
        let expected_white = match i {
            0 => 0,
            1 | 2 | 10 => 1,
            _ => -1,
        };
        let expected_black = match i {
            3 => 0,
            1 | 2 => 1,
            10 => 2,
            _ => -1,
        };
        assert_eq!(white[i], expected_white, "white distance of square {}", i);
        assert_eq!(black[i], expected_black, "black distance of square {}", i);
    }
}

#[test]
fn distance_field_of_the_start_position() {
    let game = start_game();
    let white = distances(game, Piece::White);
    let black = distances(game, Piece::Black);
    assert_eq!(white[93], 0);
    assert_eq!(white[96], 0);
    assert_eq!(white[60], 0);
    assert_eq!(white[69], 0);
    assert_eq!(white[83], 1);
    assert_eq!(white[66], 1);
    assert_eq!(white[0], 2);
    assert_eq!(black[0], 1);
    // squares of the other side are never reached
    assert_eq!(white[3], -1);
    assert_eq!(black[93], -1);
    // the field of one side mirrors the field of the other
    for y in 0..10 {
        for x in 0..10 {
            assert_eq!(white[10 * y + x], black[10 * (9 - y) + x]);
        }
    }
    for i in 0..100 {
        assert!(white[i] <= 2);
    }
}

#[test]
fn distances_count_slides_not_squares() {
    let mut game = empty_game();
    game.place(at(0, 0), Piece::White);
    let field = distances(game, Piece::White);
    assert_eq!(field[0], 0);
    assert_eq!(field[9], 1);
    assert_eq!(field[99], 1);
    assert_eq!(field[90], 1);
    assert_eq!(field[12], 2);
    assert_eq!(field[98], 2);
    let none = distances(game, Piece::Black);
    assert_eq!(none, [-1i8; 100]);
}

#[test]
fn distances_need_several_hops_round_a_wall() {
    let game = game_from(
        [
            "W.AAAAAAAA",
            "A.AAAAAAAA",
            "..AAAAAAAA",
            ".AAAAAAAAA",
            "..AAAAAAAA",
            "AAAAAAAAAA",
            "AAAAAAAAAA",
            "AAAAAAAAAA",
            "AAAAAAAAAA",
            "AAAAAAAAAA",
        ],
        true,
    );
    let field = distances(game, Piece::White);
    assert_eq!(field[0], 0);
    assert_eq!(field[1], 1);
    assert_eq!(field[11], 1);
    assert_eq!(field[21], 2);
    assert_eq!(field[20], 2);
    assert_eq!(field[30], 3);
    // one slide down the column from (2,0) passes (3,0) and ends on (4,0)
    assert_eq!(field[40], 3);
    assert_eq!(field[41], 4);
    assert_eq!(field[10], -1);
}

#[test]
fn area_control_of_the_corridor() {
    let game = corridor(true);
    assert_eq!(area_control_evaluation(game, Piece::White), 1);
    assert_eq!(area_control_evaluation(game, Piece::Black), -1);
}

#[test]
fn area_control_counts_ten_for_a_square_only_one_side_reaches() {
    let game = game_from(
        [
            "W.AB.AAAAA",
            "AAAAAAAAAA",
            "AAAAAAAAAA",
            "AAAAAAAAAA",
            "AAAAAAAAAA",
            "AAAAAAAAAA",
            "AAAAAAAAAA",
            "AAAAAAAAAA",
            "AAAAAAAAAA",
            "AAAAAAAAAA",
        ],
        true,
    );
    // White reaches its own square and (0,1); Black its own and (0,4)
    assert_eq!(area_control_evaluation(game, Piece::White), 0);
    let mut more = game;
    more.place(at(1, 0), Piece::Nothing);
    more.place(at(1, 1), Piece::Nothing);
    assert_eq!(area_control_evaluation(more, Piece::White), 20);
    assert_eq!(area_control_evaluation(more, Piece::Black), -20);
    let mut alone = more;
    alone.place(at(0, 3), Piece::Arrow);
    alone.place(at(0, 4), Piece::Arrow);
    // nothing is left for Black: four squares for White, none against
    assert_eq!(area_control_evaluation(alone, Piece::White), 40);
}

#[test]
fn evaluation_of_the_corridor() {
    assert_eq!(full_evaluation(corridor(true), Piece::White), 4);
    assert_eq!(full_evaluation(corridor(true), Piece::Black), -4);
    assert_eq!(full_evaluation(corridor(false), Piece::White), 4);
    assert_eq!(full_evaluation(corridor(false), Piece::Black), -4);
}

#[test]
fn evaluation_of_the_start_position_is_level() {
    assert_eq!(full_evaluation(start_game(), Piece::White), 0);
    assert_eq!(full_evaluation(start_game(), Piece::Black), 0);
}

#[test]
fn evaluation_is_antisymmetric() {
    let mut games = small_games();
    games.push(start_game());
    games.push(white_boxed_in());
    let after = play_move(start_game(), full((9, 3), (4, 3), (4, 8)));
    games.push(after);
    for game in games {
        assert_eq!(
            full_evaluation(game, Piece::White),
            -full_evaluation(game, Piece::Black)
        );
    }
    let after = play_move(start_game(), full((9, 3), (4, 3), (4, 8)));
    assert_ne!(full_evaluation(after, Piece::White), 0);
}

#[test]
fn evaluation_is_mobility_plus_area_difference() {
    for game in small_games() {
        let mover = turn_to_piece(game.turn);
        let other = opposite_piece(mover);
        let expected = find_possible_moves_side(game, mover).len() as i32
            - find_possible_moves_side(game, other).len() as i32
            + area_control_evaluation(game, mover)
            - area_control_evaluation(game, other);
        assert_eq!(full_evaluation(game, mover), expected);
        assert_eq!(full_evaluation(game, other), -expected);
    }
}

#[test]
fn power_and_budget_test() {
    assert_eq!(power(7, 0), Some(1));
    assert_eq!(power(0, 0), Some(1));
    assert_eq!(power(0, 3), Some(0));
    assert_eq!(power(7, 3), Some(343));
    assert_eq!(power(2176, 4), Some(22419997720576));
    assert_eq!(power(usize::MAX, 2), None);
    assert_eq!(power(1, 255), Some(1));
    assert!(exceeds_budget(2176, 4, 10000));
    assert!(exceeds_budget(2176, 2, 10000));
    assert!(!exceeds_budget(2176, 1, 10000));
    assert!(!exceeds_budget(100, 2, 10000));
    assert!(exceeds_budget(101, 2, 10000));
    assert!(exceeds_budget(usize::MAX, 3, usize::MAX));
    assert!(!exceeds_budget(5, 0, 1));
    assert!(exceeds_budget(5, 0, 0));
}

#[test]
fn greedy_mobility_picks_first_best() {
    for game in small_games() {
        let piece = turn_to_piece(game.turn);
        let moves = find_possible_moves_side(game, piece);
        let counts: Vec<usize> = moves
            .iter()
            .map(|m| find_possible_moves_side(play_move(game, *m), piece).len())
            .collect();
        let best = *counts.iter().max().unwrap();
        let first = counts.iter().position(|c| *c == best).unwrap();
        assert_eq!(basic_AI(game), moves[first]);
    }
    // stepping to (0,1) and closing the corridor behind Black keeps four
    // moves for White, more than any move generated before it
    assert_eq!(basic_AI(corridor(true)), full((0, 0), (0, 1), (0, 2)));
}

#[test]
fn greedy_obstruction_picks_first_most_obstructing() {
    for game in small_games() {
        let piece = turn_to_piece(game.turn);
        let enemy = opposite_piece(piece);
        let moves = find_possible_moves_side(game, piece);
        let counts: Vec<usize> = moves
            .iter()
            .map(|m| find_possible_moves_side(play_move(game, *m), enemy).len())
            .collect();
        let least = *counts.iter().min().unwrap();
        let first = counts.iter().position(|c| *c == least).unwrap();
        assert_eq!(obstruction_AI(game), moves[first]);
    }
    // the arrow on (0,2) shuts Black in: no move is left to it
    assert_eq!(obstruction_AI(corridor(true)), full((0, 0), (0, 1), (0, 2)));
}

#[test]
fn finished_games_score_the_sentinels() {
    let game = white_boxed_in();
    for maximizing in [true, false] {
        let lost = alpha_beta(1000, game, Piece::White, 4, -100000, 100000, maximizing);
        assert_eq!(lost, FullMoveEvaluation { full_move: no_move(), score: -100000 });
        let won = alpha_beta(1000, game, Piece::Black, 4, -100000, 100000, maximizing);
        assert_eq!(won, FullMoveEvaluation { full_move: no_move(), score: 100000 });
        let lost = monte_carlo(game, Piece::White, 1000, -100000, 100000, maximizing);
        assert_eq!(lost, FullMoveEvaluation { full_move: no_move(), score: -100000 });
        let won = monte_carlo(game, Piece::Black, 1000, -100000, 100000, maximizing);
        assert_eq!(won.score, 100000);
    }
    assert_eq!(obstruction_AI_alpha_beta_hashmap(game, 1000).score, -100000);
    assert_eq!(WIN_SCORE, 100000);
    assert_eq!(SEARCH_DEPTH, 4);
    assert_eq!(no_move(), full((0, 0), (0, 0), (0, 0)));
}

#[test]
fn a_budget_too_small_for_one_ply_gives_the_static_score() {
    let game = corridor(true);
    // seven moves: a budget of 6 does not pay for one ply
    let result = alpha_beta(6, game, Piece::White, 4, -100000, 100000, true);
    assert_eq!(result, FullMoveEvaluation { full_move: no_move(), score: 4 });
    let result = alpha_beta(1000, game, Piece::White, 0, -100000, 100000, true);
    assert_eq!(result, FullMoveEvaluation { full_move: no_move(), score: 4 });
    // a budget of 7 does
    let result = alpha_beta(7, game, Piece::White, 4, -100000, 100000, true);
    assert_ne!(result.full_move, no_move());
}

#[test]
fn one_ply_search_picks_the_first_best_successor() {
    for game in small_games() {
        let piece = turn_to_piece(game.turn);
        let moves = find_possible_moves_side(game, piece);
        let budget = moves.len();
        let scores: Vec<i32> = moves
            .iter()
            .map(|m| {
                let after = play_move(game, *m);
                if is_over(after).over {
                    if turn_to_piece(is_over(after).winner) == piece { 100000 } else { -100000 }
                } else {
                    full_evaluation(after, piece)
                }
            })
            .collect();
        let best = *scores.iter().max().unwrap();
        let first = scores.iter().position(|s| *s == best).unwrap();
        let result = alpha_beta(budget, game, piece, 4, -100000, 100000, true);
        assert_eq!(result, FullMoveEvaluation { full_move: moves[first], score: best });
        assert_eq!(obstruction_AI_alpha_beta(game, budget), moves[first]);
    }
}

#[test]
fn alpha_beta_score_is_the_minimax_value() {
    for game in small_games() {
        let piece = turn_to_piece(game.turn);
        for budget in [1usize, 7, 30, 200, 5000] {
            for depth in 0..5u8 {
                let expected = plain_minimax(game, piece, budget, depth, true);
                let result = alpha_beta(budget, game, piece, depth, -100000, 100000, true);
                assert_eq!(result.score, expected);
                let other = opposite_piece(piece);
                let expected = plain_minimax(game, other, budget, depth, false);
                let result = alpha_beta(budget, game, other, depth, -100000, 100000, false);
                assert_eq!(result.score, expected);
            }
        }
    }
}

#[test]
fn alpha_beta_searches_four_plies_where_the_budget_allows() {
    for game in [corridor(true), corridor(false)] {
        let piece = turn_to_piece(game.turn);
        let expected = plain_minimax(game, piece, 10000000, 4, true);
        let result = alpha_beta(10000000, game, piece, 4, -100000, 100000, true);
        assert_eq!(result.score, expected);
        let shallow = plain_minimax(game, piece, 10000000, 2, true);
        let result = alpha_beta(10000000, game, piece, 2, -100000, 100000, true);
        assert_eq!(result.score, shallow);
    }
}

#[test]
fn alpha_beta_names_the_first_best_move() {
    for game in [corridor(true), corridor(false)] {
        let piece = turn_to_piece(game.turn);
        let moves = find_possible_moves_side(game, piece);
        let budget = 10000000;
        let values: Vec<i32> = moves
            .iter()
            .map(|m| plain_minimax(play_move(game, *m), piece, budget, 3, false))
            .collect();
        let best = *values.iter().max().unwrap();
        let first = values.iter().position(|v| *v == best).unwrap();
        let result = alpha_beta(budget, game, piece, 4, -100000, 100000, true);
        assert_eq!(result.score, best);
        assert_eq!(result.full_move, moves[first]);
    }
}

#[test]
fn a_narrow_window_bounds_the_value() {
    for game in small_games() {
        let piece = turn_to_piece(game.turn);
        let budget = 5000;
        let value = plain_minimax(game, piece, budget, 3, true);
        for (alpha, beta) in [(value - 1, value + 1), (value, value + 5), (value - 5, value), (-3, 3), (value + 2, value + 9)] {
            let result = alpha_beta(budget, game, piece, 3, alpha, beta, true);
            if alpha < result.score && result.score < beta {
                assert_eq!(result.score, value);
            }
            if result.score <= alpha {
                assert!(value <= result.score);
            }
            if result.score >= beta {
                assert!(value >= result.score);
            }
        }
    }
}

#[test]
fn searches_play_legal_moves_until_the_game_ends() {
    let mut game = pocket(true);
    let mut turns = 0;
    while !is_over(game).over {
        let choice = obstruction_AI_alpha_beta_hashmap(game, 10000);
        assert!(is_valid_full_move(game, choice.full_move));
        game = play_move(game, choice.full_move);
        turns += 1;
        assert!(turns <= 10);
    }
    assert!(turns >= 2);
}

#[test]
fn memoized_search_agrees_with_plain_search_within_two_plies() {
    let mut games = small_games();
    games.push(start_game());
    for game in games {
        let piece = turn_to_piece(game.turn);
        let moves = find_possible_moves_side(game, piece).len();
        for budget in [0usize, 1, moves - 1, moves, moves * moves - 1] {
            let plain = alpha_beta(budget, game, piece, 4, -100000, 100000, true);
            let memo = obstruction_AI_alpha_beta_hashmap(game, budget);
            assert_eq!(plain, memo);
        }
    }
    for game in small_games() {
        let piece = turn_to_piece(game.turn);
        for depth in 0..3u8 {
            for (alpha, beta) in [(-100000, 100000), (-5, 5), (0, 1), (3, 40)] {
                let plain = alpha_beta(usize::MAX, game, piece, depth, alpha, beta, true);
                let mut cache = Cache::new();
                let key = GamePerspective { game, piece };
                let memo =
                    alpha_beta_hashmap(&mut cache, usize::MAX, key, depth, alpha, beta, true);
                assert_eq!(plain, memo);
            }
        }
    }
}

#[test]
fn memoized_search_can_differ_from_plain_search_at_three_plies() {
    let game = game_from(
        [
            "W..AAAAAAA",
            ".B..AAAAAA",
            "....AAAAAA",
            "AAAAAAAAAA",
            "AAAAAAAAAA",
            "AAAAAAAAAA",
            "AAAAAAAAAA",
            "AAAAAAAAAA",
            "AAAAAAAAAA",
            "AAAAAAAAAA",
        ],
        true,
    );
    let plain = alpha_beta(usize::MAX, game, Piece::White, 3, -100000, 100000, true);
    let mut cache = Cache::new();
    let key = GamePerspective { game, piece: Piece::White };
    let memo = alpha_beta_hashmap(&mut cache, usize::MAX, key, 3, -100000, 100000, true);
    assert_eq!(plain.score, 5);
    assert_eq!(memo.score, 0);
}

#[test]
fn memoized_search_can_differ_from_plain_search_at_four_plies() {
    let game = pocket(true);
    let piece = turn_to_piece(game.turn);
    let plain = alpha_beta(10000000, game, piece, 4, -100000, 100000, true);
    let memo = obstruction_AI_alpha_beta_hashmap(game, 10000000);
    assert_eq!(plain.score, 0);
    assert_eq!(memo.score, 10);
}

#[test]
fn a_greater_budget_can_lower_the_reported_score() {
    let game = pocket(true);
    let piece = turn_to_piece(game.turn);
    let shallow = alpha_beta(200, game, piece, 4, -100000, 100000, true);
    let deep = alpha_beta(1000, game, piece, 4, -100000, 100000, true);
    assert_eq!(shallow.score, 29);
    assert_eq!(deep.score, 9);
}

#[test]
fn budgets_that_reach_the_same_depth_report_the_same() {
    let game = pocket(true);
    let piece = turn_to_piece(game.turn);
    // both budgets are below the number of moves: no ply is searched
    let moves = find_possible_moves_side(game, piece).len();
    let first = alpha_beta(1, game, piece, 4, -100000, 100000, true);
    let second = alpha_beta(moves - 1, game, piece, 4, -100000, 100000, true);
    assert_eq!(first, second);
    // both budgets are beyond any tree of depth 4 here
    let first = alpha_beta(usize::MAX / 2, game, piece, 4, -100000, 100000, true);
    let second = alpha_beta(usize::MAX, game, piece, 4, -100000, 100000, true);
    assert_eq!(first, second);
}

#[test]
fn cache_remembers_by_position_and_perspective() {
    let mut cache = Cache::new();
    let white = GamePerspective { game: corridor(true), piece: Piece::White };
    let black = GamePerspective { game: corridor(true), piece: Piece::Black };
    let moved = GamePerspective { game: corridor(false), piece: Piece::White };
    assert_eq!(cache.get(&white), None);
    let first = FullMoveEvaluation { full_move: full((0, 0), (0, 1), (0, 0)), score: 12 };
    let second = FullMoveEvaluation { full_move: full((0, 0), (0, 2), (0, 1)), score: -7 };
    cache.insert(white, first);
    assert_eq!(cache.get(&white), Some(first));
    assert_eq!(cache.get(&black), None);
    assert_eq!(cache.get(&moved), None);
    cache.insert(black, second);
    assert_eq!(cache.get(&white), Some(first));
    assert_eq!(cache.get(&black), Some(second));
    cache.insert(white, second);
    assert_eq!(cache.get(&white), Some(second));
    for i in 0..200u8 {
        let mut game = start_game();
        game.place(at(i % 10, (i / 10) % 10), Piece::Arrow);
        game.turn = i >= 100;
        let key = GamePerspective { game, piece: Piece::White };
        cache.insert(key, FullMoveEvaluation { full_move: no_move(), score: i as i32 });
    }
    for i in 0..200u8 {
        let mut game = start_game();
        game.place(at(i % 10, (i / 10) % 10), Piece::Arrow);
        game.turn = i >= 100;
        let key = GamePerspective { game, piece: Piece::White };
        assert_eq!(cache.get(&key).unwrap().score, i as i32);
    }
    assert_eq!(cache.get(&black), Some(second));
}

#[test]
fn memo_answers_what_it_holds_and_remembers_what_it_searches() {
    let mut cache = Cache::new();
    let key = GamePerspective { game: corridor(true), piece: Piece::White };
    let planted = FullMoveEvaluation { full_move: full((0, 0), (1, 0), (0, 0)), score: 77 };
    cache.insert(key, planted);
    let answer = alpha_beta_hashmap_wrapper(&mut cache, 1000, key, 4, -100000, 100000, true);
    assert_eq!(answer, planted);
    // the search proper is not answered from the memo
    let searched = alpha_beta_hashmap(&mut cache, 1000, key, 4, -100000, 100000, true);
    assert_ne!(searched.score, 77);
    let mut fresh = Cache::new();
    let first = alpha_beta_hashmap_wrapper(&mut fresh, 1000, key, 4, -100000, 100000, true);
    assert_eq!(fresh.get(&key), Some(first));
    let again = alpha_beta_hashmap_wrapper(&mut fresh, 1, key, 0, 5, 6, false);
    assert_eq!(again, first);
}

#[test]
fn ranking_is_by_static_score_and_keeps_ties_in_order() {
    for game in small_games() {
        let piece = turn_to_piece(game.turn);
        let moves = find_possible_moves_side(game, piece);
        let ranked = rank_moves(game, &moves);
        assert_eq!(ranked.len(), moves.len());
        let mut expected: Vec<(FullMove, i32)> = moves
            .iter()
            .map(|m| (*m, full_evaluation(play_move(game, *m), piece)))
            .collect();
        expected.sort_by(|a, b| b.1.cmp(&a.1));
        for (entry, (m, score)) in ranked.iter().zip(expected.iter()) {
            assert_eq!(entry.full_move, *m);
            assert_eq!(entry.score, *score);
            assert_eq!(entry.game_after, play_move(game, *m));
        }
    }
}

#[test]
fn best_first_without_budget_names_the_best_static_move() {
    for game in small_games() {
        let piece = turn_to_piece(game.turn);
        let moves = find_possible_moves_side(game, piece);
        let ranked = rank_moves(game, &moves);
        for budget in [0usize, 1, moves.len()] {
            let result = monte_carlo(game, piece, budget, -100000, 100000, true);
            assert_eq!(result.full_move, ranked[0].full_move);
            assert_eq!(result.score, full_evaluation(game, piece));
            assert_eq!(obstruction_AI_monte_carlo(game, budget), ranked[0].full_move);
        }
    }
}

/// The best-first search written out with its shares.
fn plain_best_first(game: Game, piece: Piece, allotment: usize, alpha: i32, beta: i32, maximizing: bool) -> (FullMove, i32) {
    let status = is_over(game);
    if status.over {
        return (no_move(), if turn_to_piece(status.winner) == piece { 100000 } else { -100000 });
    }
    let mover = turn_to_piece(game.turn);
    let moves = find_possible_moves_side(game, mover);
    let mut ranked: Vec<(FullMove, i32)> = moves
        .iter()
        .map(|m| (*m, full_evaluation(play_move(game, *m), mover)))
        .collect();
    ranked.sort_by(|a, b| b.1.cmp(&a.1));
    if allotment <= moves.len() {
        return (ranked[0].0, full_evaluation(game, piece));
    }
    let step = if moves.len() > 500 { 2 } else if moves.len() > 100 { 1 } else { 0 };
    let mut k = 5;
    let mut spent = 0;
    let (mut alpha, mut beta) = (alpha, beta);
    let mut best = (ranked[0].0, if maximizing { -100000 } else { 100000 });
    for (m, _) in ranked {
        let share = allotment / k;
        spent += share;
        if spent > allotment || share == 0 {
            break;
        }
        k += step;
        let reply = plain_best_first(play_move(game, m), piece, share, alpha, beta, !maximizing).1;
        if maximizing {
            if reply > best.1 {
                best = (m, reply);
            }
            if reply >= beta {
                break;
            }
            alpha = alpha.max(reply);
        } else {
            if reply < best.1 {
                best = (m, reply);
            }
            if reply <= alpha {
                break;
            }
            beta = beta.min(reply);
        }
    }
    best
}

#[test]
fn best_first_shares_out_the_budget() {
    for game in small_games() {
        let piece = turn_to_piece(game.turn);
        for budget in [8usize, 25, 40, 100, 1000, 20000] {
            let expected = plain_best_first(game, piece, budget, -100000, 100000, true);
            let result = monte_carlo(game, piece, budget, -100000, 100000, true);
            assert_eq!((result.full_move, result.score), expected);
            assert_eq!(obstruction_AI_monte_carlo(game, budget), expected.0);
        }
    }
}

#[test]
fn best_first_searches_five_moves_with_a_fifth_each() {
    // with 25 nodes, the five best-ranked of the seven moves get five nodes
    // each, and nothing is left for the other two
    let game = corridor(true);
    let moves = find_possible_moves_side(game, Piece::White);
    let ranked = rank_moves(game, &moves);
    let mut best = (ranked[0].full_move, -100000);
    for entry in ranked.iter().take(5) {
        let after = entry.game_after;
        let score = if is_over(after).over {
            if is_over(after).winner { 100000 } else { -100000 }
        } else {
            monte_carlo(after, Piece::White, 5, -100000, 100000, false).score
        };
        if score > best.1 {
            best = (entry.full_move, score);
        }
    }
    let result = monte_carlo(game, Piece::White, 25, -100000, 100000, true);
    assert_eq!((result.full_move, result.score), best);
}

#[test]
fn hybrid_keeps_the_move_of_the_higher_score() {
    for game in small_games() {
        let piece = turn_to_piece(game.turn);
        for budget in [5usize, 70, 1000, 100000] {
            let deep = alpha_beta(budget, game, piece, 4, -100000, 100000, true);
            let wide = monte_carlo(game, piece, budget / 10, -100000, 100000, true);
            let expected = if deep.score > wide.score { deep.full_move } else { wide.full_move };
            assert_eq!(obstruction_AI_hybrid(game, budget), expected);
        }
    }
}

#[test]
fn random_move_is_one_of_the_moves() {
    let game = corridor(true);
    let moves = find_possible_moves_side(game, Piece::White);
    let mut seen = vec![false; moves.len()];
    for _ in 0..400 {
        let m = random_full_move(game, Piece::White);
        let index = moves.iter().position(|x| *x == m).unwrap();
        seen[index] = true;
    }
    // with seven moves and 400 draws, every move turns up
    assert!(seen.iter().all(|s| *s));
    let black = random_full_move(game, Piece::Black);
    assert!(find_possible_moves_side(game, Piece::Black).contains(&black));
    assert_eq!(pick_full_move(&moves, 3), moves[3]);
}

#[test]
fn start_position_search_under_the_standard_budget() {
    let game = start_game();
    let choice = obstruction_AI_alpha_beta_hashmap(game, 10000);
    assert!(is_valid_full_move(game, choice.full_move));
    let plain = alpha_beta(10000, game, Piece::White, 4, -100000, 100000, true);
    assert_eq!(choice, plain);
    assert!(choice.score > 0);
    assert!(choice.score < 100000);
    assert_eq!(full_evaluation(play_move(game, choice.full_move), Piece::White), choice.score);
}

#[test]
fn evaluations_stay_between_the_sentinels() {
    let mut crowded = empty_game();
    for i in 0..100u8 {
        let piece = if i % 3 == 0 { Piece::White } else { Piece::Nothing };
        crowded.place(at(i / 10, i % 10), piece);
    }
    let mut games = small_games();
    games.push(start_game());
    games.push(crowded);
    for game in games {
        for piece in [Piece::White, Piece::Black] {
            let score = full_evaluation(game, piece);
            assert!(-100000 < score && score < 100000);
            assert!(find_possible_moves_side(game, piece).len() <= 79625);
            let area = area_control_evaluation(game, piece);
            assert!(-9900 <= area && area <= 9900);
        }
    }
    assert!(!find_possible_moves_side(crowded, Piece::White).is_empty());
}

#[test]
fn no_full_move_is_generated_twice() {
    let mut games = small_games();
    games.push(start_game());
    for game in games {
        for piece in [Piece::White, Piece::Black] {
            let moves = find_possible_moves_side(game, piece);
            let mut seen = std::collections::HashSet::new();
            for m in &moves {
                assert!(seen.insert(*m));
            }
            let mut positions = std::collections::HashSet::new();
            if piece == turn_to_piece(game.turn) && moves.len() < 100 {
                for m in &moves {
                    assert!(positions.insert(play_move(game, *m)));
                }
            }
        }
    }
}

#[test]
fn best_first_shrinks_the_shares_faster_where_moves_abound() {
    // between 101 and 500 moves the divisor grows by one from move to move
    let open_region = game_from(
        [
            "W....AAAAA",
            ".....AAAAA",
            ".....AAAAA",
            ".....AAAAA",
            "....BAAAAA",
            "AAAAAAAAAA",
            "AAAAAAAAAA",
            "AAAAAAAAAA",
            "AAAAAAAAAA",
            "AAAAAAAAAA",
        ],
        true,
    );
    let moves = find_possible_moves_side(open_region, Piece::White).len();
    assert!(100 < moves && moves <= 500);
    let expected = plain_best_first(open_region, Piece::White, 1000, -100000, 100000, true);
    let result = monte_carlo(open_region, Piece::White, 1000, -100000, 100000, true);
    assert_eq!((result.full_move, result.score), expected);
    // above 500 moves it grows by two
    let game = start_game();
    assert!(find_possible_moves_side(game, Piece::White).len() > 500);
    let expected = plain_best_first(game, Piece::White, 3000, -100000, 100000, true);
    let result = monte_carlo(game, Piece::White, 3000, -100000, 100000, true);
    assert_eq!((result.full_move, result.score), expected);
    assert!(is_valid_full_move(game, result.full_move));
}
