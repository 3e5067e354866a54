use game2048::game::Game;

fn game_of(board: Vec<Vec<i16>>) -> Game {
    let size = board.len();
    Game { board, size, score: 0 }
}

fn tiles(game: &Game) -> Vec<i16> {
    game.board.iter().flatten().copied().filter(|&v| v != 0).collect()
}

#[test]
fn full_board_is_full() {
    let game = game_of(vec![vec![2, 4], vec![8, 16]]);
    assert!(game.is_board_full());
}

#[test]
fn one_empty_cell_is_not_full() {
    let game = game_of(vec![vec![2, 4], vec![8, 0]]);
    assert!(!game.is_board_full());
    let game = game_of(vec![vec![0, 0], vec![0, 0]]);
    assert!(!game.is_board_full());
}

#[test]
fn cell_emptiness() {
    let game = game_of(vec![vec![2, 0], vec![0, 4]]);
    assert!(!game.is_cell_empty(0, 0));
    assert!(game.is_cell_empty(0, 1));
    assert!(game.is_cell_empty(1, 0));
    assert!(!game.is_cell_empty(1, 1));
}

#[test]
fn empty_cells_in_row_major_order() {
    let game = game_of(vec![vec![0, 2, 0], vec![4, 4, 0], vec![0, 8, 2]]);
    assert_eq!(game.empty_cells(), vec![(0, 0), (0, 2), (1, 2), (2, 0)]);
    let game = game_of(vec![vec![2, 4], vec![8, 16]]);
    assert_eq!(game.empty_cells(), vec![]);
}

#[test]
fn place_new_cell_on_chosen_empty_cell() {
    let mut game = game_of(vec![vec![0, 2, 0], vec![4, 4, 0], vec![0, 8, 2]]);
    game.place_new_cell(2, true);
    assert_eq!(game.board, vec![vec![0, 2, 0], vec![4, 4, 4], vec![0, 8, 2]]);
    game.place_new_cell(0, false);
    assert_eq!(game.board, vec![vec![2, 2, 0], vec![4, 4, 4], vec![0, 8, 2]]);
    assert_eq!(game.score, 0);
}

#[test]
fn new_game_has_two_tiles_of_two() {
    for size in 2..7 {
        let game = Game::new(size);
        assert_eq!(game.size, size);
        assert_eq!(game.score, 0);
        assert_eq!(game.board.len(), size);
        assert!(game.board.iter().all(|row| row.len() == size));
        assert_eq!(tiles(&game), vec![2, 2]);
    }
}

#[test]
fn generate_fills_the_last_empty_cell() {
    let mut game = game_of(vec![vec![2, 4], vec![8, 0]]);
    game.generate_new_cell();
    assert!(game.board[1][1] == 2 || game.board[1][1] == 4);
    assert_eq!(&game.board[0], &vec![2, 4]);
    assert_eq!(game.board[1][0], 8);
    assert!(game.is_board_full());
}

#[test]
fn generate_adds_one_tile() {
    let mut game = game_of(vec![vec![0, 0, 0], vec![0, 0, 0], vec![0, 0, 0]]);
    for placed in 1..=9 {
        game.generate_new_cell();
        let t = tiles(&game);
        assert_eq!(t.len(), placed);
        assert!(t.iter().all(|&v| v == 2 || v == 4));
    }
    let before = game.board.clone();
    game.generate_new_cell();
    assert_eq!(game.board, before);
}

#[test]
fn limits_of_a_move() {
    let game = game_of(vec![vec![16383, 2], vec![0, 0]]);
    assert!(game.within_limits());
    let game = game_of(vec![vec![16384, 2], vec![0, 0]]);
    assert!(!game.within_limits());
    let mut game = game_of(vec![vec![2, 2], vec![0, 0]]);
    game.score = u32::MAX - 4;
    assert!(game.within_limits());
    game.score = u32::MAX - 3;
    assert!(!game.within_limits());
}

#[test]
fn snapshot_shows_score_and_aligned_rows() {
    let mut game = game_of(vec![vec![2, 0], vec![16, 1024]]);
    game.score = 12;
    assert_eq!(game.snapshot(), "Score: 12\r\n\n   2    0 \r\n  16 1024 \r\n");
    let game = game_of(vec![vec![32766, 0], vec![0, 0]]);
    assert_eq!(game.snapshot(), "Score: 0\r\n\n32766    0 \r\n   0    0 \r\n");
}
