use connect_four::board::add_piece;
use connect_four::board::new_board;
use connect_four::player::Strategy;
use connect_four::player::new_player;
use connect_four::search::SEARCH_DEPTH;
use connect_four::search::minimax;
use connect_four::search::minimax_move;

#[test]
fn minimax_at_depth_zero_is_zero() {
    let mut board = new_board(7, 6);
    assert!(add_piece(&mut board, 3, 1));
    let player = new_player(Strategy::Minimax, 1);
    assert_eq!(minimax(&board, 0, player, 1), 0);
    assert_eq!(minimax(&board, 0, player, 2), 0);
}

#[test]
fn minimax_on_a_full_board_is_zero() {
    // fill all 42 cells with the drawless pattern of paired columns
    let mut board = new_board(7, 6);
    for c in 0..7 {
        for k in 0..6 {
            let group_b = (c % 4) >= 2;
            let piece = if group_b == (k % 2 == 0) { 2 } else { 1 };
            assert!(add_piece(&mut board, c, piece));
        }
    }
    let player = new_player(Strategy::Minimax, 1);
    assert_eq!(minimax(&board, SEARCH_DEPTH, player, 1), 0);
    assert_eq!(minimax(&board, SEARCH_DEPTH, player, 2), 0);
}

#[test]
fn minimax_scores_an_immediate_win_at_full_depth_value() {
    // player 1 has three in column 0 and wins by playing it again
    let mut board = new_board(7, 6);
    for _ in 0..3 {
        assert!(add_piece(&mut board, 0, 1));
    }
    assert!(add_piece(&mut board, 6, 2));
    let player = new_player(Strategy::Minimax, 1);
    // the searching player moves and wins: +100 per remaining ply
    assert_eq!(minimax(&board, 3, player, 1), 300);
    assert_eq!(minimax(&board, 2, player, 1), 200);
}

#[test]
fn minimax_scores_an_opponent_win_negatively() {
    // player 2 has three in column 0; with player 2 to move the
    // searching player 1 sees an immediate loss
    let mut board = new_board(7, 6);
    for _ in 0..3 {
        assert!(add_piece(&mut board, 0, 2));
    }
    let player = new_player(Strategy::Minimax, 1);
    assert_eq!(minimax(&board, 3, player, 2), -300);
}

#[test]
fn minimax_move_takes_the_only_winning_column() {
    // player 1 can complete a horizontal run only at column 3
    let mut board = new_board(7, 6);
    assert!(add_piece(&mut board, 0, 1));
    assert!(add_piece(&mut board, 1, 1));
    assert!(add_piece(&mut board, 2, 1));
    // block the vertical threats so no other column wins at once
    assert!(add_piece(&mut board, 6, 2));
    let player = new_player(Strategy::Minimax, 1);
    assert_eq!(minimax_move(&player, &board), 3);
}

#[test]
fn minimax_move_blocks_a_vertical_threat() {
    // player 2 has three in column 0; every other move of player 1
    // loses at once, so the search must pick column 0
    let mut board = new_board(7, 6);
    for _ in 0..3 {
        assert!(add_piece(&mut board, 0, 2));
    }
    assert!(add_piece(&mut board, 4, 1));
    assert!(add_piece(&mut board, 5, 1));
    let player = new_player(Strategy::Minimax, 1);
    assert_eq!(minimax_move(&player, &board), 0);
}
