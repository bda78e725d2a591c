use tic_tac_toe_bot::board::{Board, GameResult, Move, Player, Space};

#[test]
fn should_set_by_index() {
    let mut board = Board::new(3, 3);

    let _ = board.set_by_index(0, Space::Player(Player::X));

    assert_eq!(
        board.spaces,
        [
            Space::Player(Player::X),
            Space::Empty,
            Space::Empty,
            Space::Empty,
            Space::Empty,
            Space::Empty,
            Space::Empty,
            Space::Empty,
            Space::Empty,
        ]
    )
}

#[test]
fn should_set_by_row_col() {
    let mut board = Board::new(3, 3);

    let _ = board.set(0, 0, Space::Player(Player::X));
    let _ = board.set(1, 1, Space::Player(Player::X));
    let _ = board.set(2, 2, Space::Player(Player::X));

    assert_eq!(
        board.spaces,
        [
            Space::Player(Player::X),
            Space::Empty,
            Space::Empty,
            Space::Empty,
            Space::Player(Player::X),
            Space::Empty,
            Space::Empty,
            Space::Empty,
            Space::Player(Player::X),
        ]
    )
}

#[test]
fn should_track_past_moves() {
    let mut board = Board::new(3, 3);

    let _ = board.set(0, 0, Space::Player(Player::X));
    let _ = board.set(1, 1, Space::Player(Player::O));
    let _ = board.set(2, 2, Space::Player(Player::X));

    assert_eq!(
        board.moves,
        [
            Move {
                index: 0,
                key: 0 as u64,
                space: Space::Player(Player::X)
            },
            Move {
                index: 4,
                key: 2 as u64,
                space: Space::Player(Player::O)
            },
            Move {
                index: 8,
                key: 6563 as u64,
                space: Space::Player(Player::X)
            }
        ]
    )
}

#[test]
fn should_check_if_moves_available_1() {
    let board = Board::new(3, 3);

    assert_eq!(board.moves_available(), true);

    let mut board = Board::new(3, 3);

    for space in 0..9 {
        let _ = board.set_by_index(space, Space::Player(Player::X));
    }

    assert_eq!(board.moves_available(), false);
}

#[test]
fn should_check_if_moves_available_2() {
    let mut board = Board::new(3, 3);

    let _ = board.set_by_index(0, Space::Player(Player::X));
    let _ = board.set_by_index(1, Space::Player(Player::O));

    assert_eq!(board.moves_available(), true);
}

#[test]
fn should_determine_row_winner_1() {
    let mut board = Board::new(3, 3);
    let row = 0;

    let _ = board.set(row, 0, Space::Player(Player::X));
    let _ = board.set(row, 1, Space::Player(Player::X));
    let _ = board.set(row, 2, Space::Player(Player::X));

    assert_eq!(
        board.determine_winner(),
        Some(GameResult::Winner(Player::X))
    );
}

#[test]
fn should_determine_row_winner_2() {
    let mut board = Board::new(3, 3);
    let row = 1;

    let _ = board.set(row, 0, Space::Player(Player::X));
    let _ = board.set(row, 1, Space::Player(Player::X));
    let _ = board.set(row, 2, Space::Player(Player::X));

    assert_eq!(
        board.determine_winner(),
        Some(GameResult::Winner(Player::X))
    );
}

#[test]
fn should_determine_row_winner_3() {
    let mut board = Board::new(3, 3);
    let row = 2;

    let _ = board.set(row, 0, Space::Player(Player::X));
    let _ = board.set(row, 1, Space::Player(Player::X));
    let _ = board.set(row, 2, Space::Player(Player::X));

    assert_eq!(
        board.determine_winner(),
        Some(GameResult::Winner(Player::X))
    );
}

#[test]
fn should_determine_col_winner_1() {
    let mut board = Board::new(3, 3);
    let col = 0;

    let _ = board.set(0, col, Space::Player(Player::O));
    let _ = board.set(1, col, Space::Player(Player::O));
    let _ = board.set(2, col, Space::Player(Player::O));

    assert_eq!(
        board.determine_winner(),
        Some(GameResult::Winner(Player::O))
    );
}

#[test]
fn should_determine_col_winner_2() {
    let mut board = Board::new(3, 3);
    let col = 1;

    let _ = board.set(0, col, Space::Player(Player::O));
    let _ = board.set(1, col, Space::Player(Player::O));
    let _ = board.set(2, col, Space::Player(Player::O));

    assert_eq!(
        board.determine_winner(),
        Some(GameResult::Winner(Player::O))
    );
}

#[test]
fn should_determine_col_winner_3() {
    let mut board = Board::new(3, 3);
    let col = 2;

    let _ = board.set(0, col, Space::Player(Player::O));
    let _ = board.set(1, col, Space::Player(Player::O));
    let _ = board.set(2, col, Space::Player(Player::O));

    assert_eq!(
        board.determine_winner(),
        Some(GameResult::Winner(Player::O))
    );
}

#[test]
fn should_determine_diag_winner_1() {
    let mut board = Board::new(3, 3);

    let _ = board.set(0, 0, Space::Player(Player::X));
    let _ = board.set(1, 1, Space::Player(Player::X));
    let _ = board.set(2, 2, Space::Player(Player::X));

    assert_eq!(
        board.determine_winner(),
        Some(GameResult::Winner(Player::X))
    );
}

#[test]
fn should_determine_diag_winner_2() {
    let mut board = Board::new(3, 3);

    let _ = board.set(0, 2, Space::Player(Player::O));
    let _ = board.set(1, 1, Space::Player(Player::O));
    let _ = board.set(2, 0, Space::Player(Player::O));

    assert_eq!(
        board.determine_winner(),
        Some(GameResult::Winner(Player::O))
    );
}
