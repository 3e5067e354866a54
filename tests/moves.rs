use game2048::game::{Action, Game};
use game2048::line::slide_line;

fn game_of(board: Vec<Vec<i16>>) -> Game {
    let size = board.len();
    Game { board, size, score: 0 }
}

fn tiles(board: &Vec<Vec<i16>>) -> usize {
    board.iter().flatten().filter(|&&v| v != 0).count()
}

#[test]
fn when_run_up_should_move_everything_in_upper_row() {
    let mut game = Game {
        board: vec![
            vec![2, 0, 0, 0],
            vec![0, 2, 0, 0],
            vec![0, 0, 2, 0],
            vec![0, 0, 0, 2],
        ],
        size: 4,
        score: 0,
    };

    let expected_state = vec![
        vec![2, 2, 2, 2],
        vec![0, 0, 0, 0],
        vec![0, 0, 0, 0],
        vec![0, 0, 0, 0],
    ];

    game.compute(Action::Up);
    assert_eq!(game.board, expected_state);
    assert_eq!(game.score, 0);
}

#[test]
fn when_run_up_and_there_is_a_double_it_should_be_summed_and_moved_up() {
    let mut game = Game {
        board: vec![
            vec![2, 0, 0, 0],
            vec![2, 0, 2, 2],
            vec![2, 0, 2, 2],
            vec![2, 2, 2, 0],
        ],
        size: 4,
        score: 0,
    };

    let expected_state = vec![
        vec![4, 2, 4, 4],
        vec![4, 0, 2, 0],
        vec![0, 0, 0, 0],
        vec![0, 0, 0, 0],
    ];

    game.compute(Action::Up);
    assert_eq!(game.board, expected_state);
    assert_eq!(game.score, 16);
}

#[test]
fn when_run_down_it_should_compute_and_move_everything_down() {
    let mut game = Game {
        board: vec![vec![2, 0, 0], vec![2, 0, 2], vec![2, 0, 2]],
        size: 3,
        score: 0,
    };

    let expected_state = vec![vec![0, 0, 0], vec![2, 0, 0], vec![4, 0, 4]];
    game.compute(Action::Down);
    assert_eq!(game.board, expected_state);
    assert_eq!(game.score, 8);
}

#[test]
fn when_run_left_it_should_compute_and_move_everything_left() {
    let mut game = Game {
        board: vec![vec![2, 2, 2], vec![2, 2, 0], vec![0, 0, 2]],
        size: 3,
        score: 0,
    };

    let expected_state = vec![vec![4, 2, 0], vec![4, 0, 0], vec![2, 0, 0]];

    game.compute(Action::Left);
    assert_eq!(game.board, expected_state);
    assert_eq!(game.score, 8);
}

#[test]
fn when_run_right_should_compute_and_move_everything_right() {
    let mut game = Game {
        board: vec![vec![2, 2, 2], vec![2, 2, 0], vec![0, 0, 2]],
        size: 3,
        score: 0,
    };

    let expected_state = vec![vec![0, 2, 4], vec![0, 0, 4], vec![0, 0, 2]];

    game.compute(Action::Right);
    assert_eq!(game.board, expected_state);
    assert_eq!(game.score, 8);
}

#[test]
fn four_equal_tiles_merge_in_two_pairs() {
    let mut game = game_of(vec![
        vec![2, 2, 2, 2],
        vec![0, 0, 0, 0],
        vec![0, 0, 0, 0],
        vec![0, 0, 0, 0],
    ]);
    assert!(game.compute(Action::Left));
    assert_eq!(game.board[0], vec![4, 4, 0, 0]);
    assert_eq!(game.score, 8);

    let mut game = game_of(vec![
        vec![2, 2, 2, 2],
        vec![0, 0, 0, 0],
        vec![0, 0, 0, 0],
        vec![0, 0, 0, 0],
    ]);
    game.compute(Action::Right);
    assert_eq!(game.board[0], vec![0, 0, 4, 4]);
    assert_eq!(game.score, 8);
}

#[test]
fn merged_tile_does_not_merge_again() {
    let mut game = game_of(vec![vec![2, 2, 4], vec![0, 0, 0], vec![0, 0, 0]]);
    game.compute(Action::Left);
    assert_eq!(game.board[0], vec![4, 4, 0]);
    assert_eq!(game.score, 4);
}

#[test]
fn tile_stops_at_a_different_tile() {
    let mut game = game_of(vec![
        vec![2, 4, 0, 2],
        vec![0, 0, 0, 0],
        vec![0, 0, 0, 0],
        vec![0, 0, 0, 0],
    ]);
    game.compute(Action::Left);
    assert_eq!(game.board[0], vec![2, 4, 2, 0]);
    assert_eq!(game.score, 0);
}

#[test]
fn gap_then_pair_moved_left() {
    let mut game = game_of(vec![
        vec![2, 0, 2, 2],
        vec![0, 0, 0, 0],
        vec![0, 0, 0, 0],
        vec![0, 0, 0, 0],
    ]);
    game.score = 10;
    assert!(game.compute(Action::Left));
    assert_eq!(game.board[0], vec![4, 2, 0, 0]);
    assert_eq!(game.score, 14);
}

#[test]
fn column_with_gap_moved_down() {
    let mut game = game_of(vec![vec![2, 0, 0], vec![0, 0, 0], vec![2, 0, 0]]);
    game.compute(Action::Down);
    assert_eq!(game.board, vec![vec![0, 0, 0], vec![0, 0, 0], vec![4, 0, 0]]);
    assert_eq!(game.score, 4);
}

#[test]
fn blocked_full_board_is_unchanged() {
    let start = vec![vec![2, 4, 2], vec![4, 2, 4], vec![2, 4, 2]];
    for action in [Action::Up, Action::Down, Action::Left, Action::Right] {
        let mut game = game_of(start.clone());
        assert!(!game.compute(action));
        assert_eq!(game.board, start);
        assert_eq!(game.score, 0);
    }
}

#[test]
fn second_move_the_same_way_changes_nothing() {
    let start = vec![
        vec![0, 2, 0, 4],
        vec![2, 0, 8, 0],
        vec![0, 0, 2, 2],
        vec![4, 0, 0, 16],
    ];
    for action in [Action::Up, Action::Down, Action::Left, Action::Right] {
        let mut game = game_of(start.clone());
        game.compute(action);
        let after = game.board.clone();
        let score = game.score;
        assert!(!game.compute(action));
        assert_eq!(game.board, after);
        assert_eq!(game.score, score);
    }
}

#[test]
fn second_move_merges_pairs_formed_by_the_first() {
    let mut game = game_of(vec![vec![2, 2, 4], vec![0, 0, 0], vec![0, 0, 0]]);
    game.compute(Action::Left);
    assert!(game.compute(Action::Left));
    assert_eq!(game.board[0], vec![8, 0, 0]);
    assert_eq!(game.score, 12);
}

#[test]
fn tile_count_drops_by_the_number_of_merges() {
    let start = vec![
        vec![2, 2, 2, 0],
        vec![4, 4, 8, 8],
        vec![0, 2, 0, 2],
        vec![16, 0, 0, 0],
    ];
    let mut game = game_of(start.clone());
    game.compute(Action::Left);
    // Merges: one in the first row, two in the second, one in the third.
    assert_eq!(tiles(&game.board), tiles(&start) - 4);
    let mut game = game_of(vec![vec![2, 0, 0], vec![0, 4, 0], vec![0, 0, 8]]);
    game.compute(Action::Right);
    assert_eq!(tiles(&game.board), 3);
}

#[test]
fn score_never_goes_down_over_many_moves() {
    let mut game = game_of(vec![
        vec![2, 2, 4, 8],
        vec![2, 0, 4, 8],
        vec![4, 4, 0, 2],
        vec![0, 2, 2, 2],
    ]);
    let mut last = game.score;
    for action in [
        Action::Left,
        Action::Up,
        Action::Right,
        Action::Down,
        Action::Left,
        Action::Up,
    ] {
        game.compute(action);
        assert!(game.score >= last);
        last = game.score;
    }
    assert!(game.score > 0);
}

#[test]
fn slide_line_packs_and_merges() {
    assert_eq!(slide_line(&vec![2, 0, 2, 2]), (vec![4, 2, 0, 0], 4));
    assert_eq!(slide_line(&vec![2, 2, 2, 2]), (vec![4, 4, 0, 0], 8));
    assert_eq!(slide_line(&vec![0, 0, 0]), (vec![0, 0, 0], 0));
    assert_eq!(slide_line(&vec![]), (vec![], 0));
    assert_eq!(slide_line(&vec![8, 8, 16]), (vec![16, 16, 0], 16));
}

#[test]
fn largest_mergeable_tiles_merge() {
    let mut game = game_of(vec![vec![16383, 16383], vec![0, 0]]);
    assert!(game.within_limits());
    game.compute(Action::Left);
    assert_eq!(game.board[0], vec![32766, 0]);
    assert_eq!(game.score, 32766);
}
