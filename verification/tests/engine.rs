use tic_tac_toe_bot::board::{Board, GameResult, Player, Space};
use tic_tac_toe_bot::bot::{select_move, Bot, BotConfig};
use tic_tac_toe_bot::persist::PersistenceError;
use tic_tac_toe_bot::train::{play, train};

fn fresh_bot(player: Player) -> Bot {
    Bot::new(BotConfig {
        player,
        winning_move_boost: None,
        win_boost: None,
        loose_boost: None,
        tie_boost: None,
    })
}

/// A finished game: X takes the top row while O answers below it.
/// Move keys: 0, 2, 731, 749, 7310 in base 9.
fn finished_game() -> Board {
    let mut board = Board::new(3, 3);
    board.set_by_index(0, Space::Player(Player::X)).unwrap();
    board.set_by_index(3, Space::Player(Player::O)).unwrap();
    board.set_by_index(1, Space::Player(Player::X)).unwrap();
    board.set_by_index(4, Space::Player(Player::O)).unwrap();
    board.set_by_index(2, Space::Player(Player::X)).unwrap();
    board
}

#[test]
fn key_is_injective_and_stable() {
    let mut b1 = Board::new(3, 3);
    let mut b2 = Board::new(3, 3);
    b1.set_by_index(0, Space::Player(Player::X)).unwrap();
    b2.set_by_index(0, Space::Player(Player::O)).unwrap();

    assert_ne!(b1.key_as_u64(), b2.key_as_u64());
    assert_eq!(b1.key_as_u64(), b1.key_as_u64());
    assert_eq!(b1.key_as_u64(), 2);
    assert_eq!(b2.key_as_u64(), 1);
}

#[test]
fn key_as_string_renders_cells_in_order() {
    let mut board = Board::new(3, 3);
    assert_eq!(board.key_as_string(), "---------");

    board.set_by_index(0, Space::Player(Player::X)).unwrap();
    board.set_by_index(4, Space::Player(Player::O)).unwrap();
    assert_eq!(board.key_as_string(), "X---O----");
}

#[test]
fn space_symbols() {
    assert_eq!(Space::Empty.to_str(), "-");
    assert_eq!(Space::Player(Player::X).to_str(), "X");
    assert_eq!(Space::Player(Player::O).to_str(), "O");
}

#[test]
fn set_on_occupied_cell_changes_nothing() {
    let mut board = Board::new(3, 3);
    board.set_by_index(0, Space::Player(Player::X)).unwrap();
    let spaces_before = board.spaces.clone();
    let moves_before = board.moves.clone();

    assert_eq!(board.set_by_index(0, Space::Player(Player::O)), Err(()));
    assert_eq!(board.set(0, 0, Space::Player(Player::O)), Err(()));

    assert_eq!(board.spaces, spaces_before);
    assert_eq!(board.moves, moves_before);
}

#[test]
fn set_out_of_range_is_rejected() {
    let mut board = Board::new(3, 3);
    assert_eq!(board.set_by_index(9, Space::Player(Player::X)), Err(()));
    assert_eq!(board.set(3, 0, Space::Player(Player::X)), Err(()));
    assert_eq!(board.set(0, 3, Space::Player(Player::X)), Err(()));
    assert!(board.moves.is_empty());
}

#[test]
fn available_spaces_are_the_empty_cells() {
    let mut board = Board::new(3, 3);
    board.set_by_index(0, Space::Player(Player::X)).unwrap();
    board.set_by_index(3, Space::Player(Player::O)).unwrap();
    board.set_by_index(1, Space::Player(Player::X)).unwrap();
    board.set_by_index(4, Space::Player(Player::O)).unwrap();

    assert_eq!(board.get_available_spaces(), vec![2, 5, 6, 7, 8]);
    assert_eq!(
        Bot::get_default_moves(&board),
        vec![0, 0, 10, 0, 0, 10, 10, 10, 10]
    );
}

#[test]
fn winner_is_symmetric_under_transpose() {
    // X owns the top row; the transposed board has X owning the left
    // column. Both report the same winner.
    let mut b1 = Board::new(3, 3);
    b1.set(0, 0, Space::Player(Player::X)).unwrap();
    b1.set(1, 0, Space::Player(Player::O)).unwrap();
    b1.set(0, 1, Space::Player(Player::X)).unwrap();
    b1.set(1, 1, Space::Player(Player::O)).unwrap();
    b1.set(0, 2, Space::Player(Player::X)).unwrap();

    let mut b2 = Board::new(3, 3);
    for r in 0..3 {
        for c in 0..3 {
            if let Space::Player(p) = b1.spaces[r * 3 + c] {
                b2.set(c, r, Space::Player(p)).unwrap();
            }
        }
    }

    assert_eq!(b1.determine_winner(), b2.determine_winner());
    assert_eq!(b1.determine_winner(), Some(GameResult::Winner(Player::X)));
}

#[test]
fn full_board_without_line_is_a_tie() {
    let mut board = Board::new(3, 3);
    // X O X / X O O / O X X: no line belongs to one player
    let layout = [
        Player::X,
        Player::O,
        Player::X,
        Player::X,
        Player::O,
        Player::O,
        Player::O,
        Player::X,
        Player::X,
    ];
    for (i, p) in layout.iter().enumerate() {
        board.set_by_index(i, Space::Player(*p)).unwrap();
    }
    assert_eq!(board.determine_winner(), Some(GameResult::Tie));
}

#[test]
fn unfinished_board_has_no_result() {
    let mut board = Board::new(3, 3);
    board.set_by_index(0, Space::Player(Player::X)).unwrap();
    assert_eq!(board.determine_winner(), None);
}

#[test]
fn select_move_walks_weights_deterministically() {
    assert_eq!(select_move(&vec![5, 5], 3), Some(0));
    assert_eq!(select_move(&vec![5, 5], 7), Some(1));
    assert_eq!(select_move(&vec![0, -2, 4], 1), Some(2));
    assert_eq!(select_move(&vec![0, 0, 0], 1), None);
    assert_eq!(select_move(&vec![-5], 1), None);
    assert_eq!(select_move(&vec![10, 10, 10], 10), Some(0));
    assert_eq!(select_move(&vec![10, 10, 10], 11), Some(1));
}

#[test]
fn bot_new_takes_defaults_and_overrides() {
    let bot = fresh_bot(Player::X);
    assert_eq!(bot.player, Player::X);
    assert_eq!(bot.winning_move_boost, 1000);
    assert_eq!(bot.win_boost, 3);
    assert_eq!(bot.loose_boost, -1);
    assert_eq!(bot.tie_boost, 0);
    assert!(bot.memory.is_empty());

    let bot = Bot::new(BotConfig {
        player: Player::O,
        winning_move_boost: Some(500),
        win_boost: Some(7),
        loose_boost: Some(-2),
        tie_boost: Some(1),
    });
    assert_eq!(bot.player, Player::O);
    assert_eq!(bot.winning_move_boost, 500);
    assert_eq!(bot.win_boost, 7);
    assert_eq!(bot.loose_boost, -2);
    assert_eq!(bot.tie_boost, 1);
}

#[test]
fn first_visit_installs_default_weights() {
    let board = Board::new(3, 3);
    let mut bot = fresh_bot(Player::X);

    let mv = bot.determine_move(&board);

    assert!(matches!(mv, Some(i) if i < 9));
    assert_eq!(bot.memory.get(&0).unwrap(), &vec![10; 9]);
}

#[test]
fn win_boosts_decisive_move_most() {
    let board = finished_game();
    let mut x = fresh_bot(Player::X);

    x.learn(&board, GameResult::Winner(Player::X));

    // ordinary win boost on the early moves, the big boost on the
    // decisive final move
    assert_eq!(x.memory.get(&0).unwrap()[0], 3);
    assert_eq!(x.memory.get(&731).unwrap()[1], 3);
    assert_eq!(x.memory.get(&7310).unwrap()[2], 1000);
    assert!(x.memory.get(&7310).unwrap()[2] > x.memory.get(&0).unwrap()[0]);
}

#[test]
fn loss_zeroes_the_fatal_move() {
    let board = finished_game();
    let mut o = fresh_bot(Player::O);
    // the state before O's final (fatal) move, as the bot would have
    // weighted it
    o.memory.insert(749, vec![10; 9]);

    o.learn(&board, GameResult::Winner(Player::X));

    let weights = o.memory.get(&749).unwrap();
    assert_eq!(weights[4], 0);
    assert_eq!(weights[0], 10);
}

#[test]
fn starved_state_resets_to_defaults_on_next_read() {
    let board = finished_game();
    let mut o = fresh_bot(Player::O);
    // only the fatal cell carries weight, so blaming it starves the state
    let mut weights = vec![0; 9];
    weights[4] = 5;
    o.memory.insert(749, weights);

    o.learn(&board, GameResult::Winner(Player::X));
    assert!(!o.memory.contains_key(&749));

    // replay up to that state: the next read reinstalls the defaults
    let mut replayed = Board::new(3, 3);
    replayed.set_by_index(0, Space::Player(Player::X)).unwrap();
    replayed.set_by_index(3, Space::Player(Player::O)).unwrap();
    replayed.set_by_index(1, Space::Player(Player::X)).unwrap();
    assert_eq!(replayed.key_as_u64(), 749);

    let mv = o.determine_move(&replayed);
    assert!(mv.is_some());
    assert_eq!(
        o.memory.get(&749).unwrap(),
        &vec![0, 0, 10, 0, 10, 10, 10, 10, 10]
    );
}

#[test]
fn tie_applies_tie_boost() {
    let board = finished_game();
    let mut x = Bot::new(BotConfig {
        player: Player::X,
        winning_move_boost: None,
        win_boost: None,
        loose_boost: None,
        tie_boost: Some(2),
    });
    x.memory.insert(0, vec![10; 9]);

    x.learn(&board, GameResult::Tie);

    assert_eq!(x.memory.get(&0).unwrap()[0], 12);
}

#[test]
fn training_accounts_for_every_game() {
    let mut board = Board::new(3, 3);
    let mut x = fresh_bot(Player::X);
    let mut o = fresh_bot(Player::O);

    let stats = train(&mut board, &mut x, &mut o, 200);

    assert_eq!(stats.stalled, 0);
    assert_eq!(stats.x_wins + stats.o_wins + stats.ties, 200);
}

#[test]
fn game_finishes_with_a_result() {
    let mut board = Board::new(3, 3);
    let mut x = fresh_bot(Player::X);
    let mut o = fresh_bot(Player::O);

    let result = play(&mut board, &mut x, &mut o);

    assert!(result.is_ok());
    assert_eq!(board.determine_winner(), Some(result.unwrap()));
}

#[test]
fn starved_opening_stalls_the_game() {
    let mut board = Board::new(3, 3);
    let mut x = fresh_bot(Player::X);
    let mut o = fresh_bot(Player::O);
    // a corrupted table claims the opening state has no viable move
    x.memory.insert(0, vec![0; 9]);

    let result = play(&mut board, &mut x, &mut o);

    assert_eq!(result, Err(Player::X));
}

#[test]
fn corrupt_table_naming_occupied_cell_stalls() {
    let mut board = Board::new(3, 3);
    let mut x = fresh_bot(Player::X);
    let mut o = fresh_bot(Player::O);
    // X is forced to open on cell 0; O's table for the resulting state
    // credits only that same, now occupied, cell
    let mut weights = vec![0; 9];
    weights[0] = 10;
    x.memory.insert(0, weights.clone());
    o.memory.insert(2, weights);

    assert_eq!(play(&mut board, &mut x, &mut o), Err(Player::O));
    assert_eq!(board.spaces[0], Space::Player(Player::X));
}

#[test]
fn brain_roundtrip_reproduces_the_table() {
    let mut x = fresh_bot(Player::X);
    let mut board = Board::new(3, 3);
    train(&mut board, &mut x, &mut fresh_bot(Player::O), 20);
    assert!(!x.memory.is_empty());

    let blob = x.export_brain();
    let mut copy = fresh_bot(Player::X);
    assert_eq!(copy.load_brain(blob), Ok(()));

    assert_eq!(copy.memory, x.memory);
}

#[test]
fn corrupt_brain_is_rejected_and_leaves_table_alone() {
    let mut x = fresh_bot(Player::X);
    x.memory.insert(42, vec![1, 2, 3]);
    let before = x.memory.clone();

    assert_eq!(
        x.load_brain(vec![1, 2, 3]),
        Err(PersistenceError::Corrupt)
    );
    assert_eq!(x.memory, before);
}
