use connect_four::board::add_piece;
use connect_four::board::new_board;
use connect_four::player::Strategy;
use connect_four::player::get_move;
use connect_four::player::new_player;
use connect_four::player::parse_column_choice;
use connect_four::player::random_move;
use connect_four::player::randosmart_move;

#[test]
fn random_move_returns_a_playable_column() {
    let mut board = new_board(7, 6);
    for c in 0..7 {
        if c == 5 {
            continue;
        }
        for k in 0..6 {
            let piece = if k % 2 == 0 { 1 } else { 2 };
            assert!(add_piece(&mut board, c, piece));
        }
    }
    // only column 5 is playable, so the random choice is forced
    for _ in 0..20 {
        assert_eq!(random_move(&board), 5);
    }
}

#[test]
fn random_move_stays_within_the_playable_set() {
    let mut board = new_board(7, 6);
    for k in 0..6 {
        let piece = if k % 2 == 0 { 1 } else { 2 };
        assert!(add_piece(&mut board, 2, piece));
    }
    for _ in 0..50 {
        let col = random_move(&board);
        assert!(col < 7);
        assert_ne!(col, 2);
    }
}

#[test]
fn greedy_takes_its_own_winning_column_first() {
    // the mover can win at column 3; the opponent threatens column 0
    let mut board = new_board(7, 6);
    for _ in 0..3 {
        assert!(add_piece(&mut board, 0, 2));
    }
    for _ in 0..3 {
        assert!(add_piece(&mut board, 3, 1));
    }
    let player = new_player(Strategy::Greedy, 1);
    assert_eq!(randosmart_move(&player, &board), 3);
}

#[test]
fn greedy_blocks_an_open_ended_horizontal_three() {
    // the opponent holds columns 0, 1, 2 on the floor; the only open
    // end of that run is column 3
    let mut board = new_board(7, 6);
    assert!(add_piece(&mut board, 0, 2));
    assert!(add_piece(&mut board, 1, 2));
    assert!(add_piece(&mut board, 2, 2));
    assert!(add_piece(&mut board, 4, 1));
    assert!(add_piece(&mut board, 5, 1));
    assert!(add_piece(&mut board, 5, 1));
    let player = new_player(Strategy::Greedy, 1);
    assert_eq!(randosmart_move(&player, &board), 3);
}

#[test]
fn get_move_returns_none_for_a_human() {
    let board = new_board(7, 6);
    let player = new_player(Strategy::Human, 1);
    assert_eq!(get_move(&player, &board), None);
}

#[test]
fn get_move_dispatches_to_the_strategies() {
    let mut board = new_board(7, 6);
    assert!(add_piece(&mut board, 0, 2));
    assert!(add_piece(&mut board, 1, 2));
    assert!(add_piece(&mut board, 2, 2));
    assert!(add_piece(&mut board, 4, 1));
    assert!(add_piece(&mut board, 5, 1));
    assert!(add_piece(&mut board, 5, 1));
    let greedy = new_player(Strategy::Greedy, 1);
    assert_eq!(get_move(&greedy, &board), Some(3));
    let random = new_player(Strategy::Random, 1);
    let col = get_move(&random, &board).unwrap();
    assert!(col < 7);
    let minimax = new_player(Strategy::Minimax, 1);
    assert_eq!(get_move(&minimax, &board), Some(3));
}

#[test]
fn parse_accepts_a_column_in_range() {
    assert_eq!(parse_column_choice(b"1", 7), Some(0));
    assert_eq!(parse_column_choice(b"4", 7), Some(3));
    assert_eq!(parse_column_choice(b"7", 7), Some(6));
    assert_eq!(parse_column_choice(b"12", 12), Some(11));
    assert_eq!(parse_column_choice(b"007", 7), Some(6));
}

#[test]
fn parse_rejects_out_of_range_numbers() {
    assert_eq!(parse_column_choice(b"0", 7), None);
    assert_eq!(parse_column_choice(b"8", 7), None);
    assert_eq!(parse_column_choice(b"100", 7), None);
    assert_eq!(parse_column_choice(b"99999999999999999999999", 7), None);
}

#[test]
fn parse_rejects_text_that_is_not_a_number() {
    assert_eq!(parse_column_choice(b"", 7), None);
    assert_eq!(parse_column_choice(b"a", 7), None);
    assert_eq!(parse_column_choice(b"3a", 7), None);
    assert_eq!(parse_column_choice(b"-2", 7), None);
    assert_eq!(parse_column_choice(b" 3", 7), None);
}
