use connect_four::board::add_piece;
use connect_four::board::get_empty_columns;
use connect_four::board::new_board;
use connect_four::win::game_over_check;
use connect_four::win::is_game_over;

/// The piece of the draw pattern at column `c`, counting `k` cells up
/// from the floor: columns come in the groups `1 1 2 2 1 1 2` on the
/// floor row, and every column alternates upward.  No four in a row
/// appears anywhere in the filled grid.
fn draw_pattern(c: usize, k: usize) -> usize {
    let group_b = (c % 4) >= 2;
    if group_b == (k % 2 == 0) {
        2
    } else {
        1
    }
}

#[test]
fn no_move_means_no_win() {
    let board = new_board(7, 6);
    assert!(!game_over_check(&board));
}

#[test]
fn horizontal_win_scenario() {
    // player 1 plays columns 0, 1, 2, 3; player 2 plays column 6 in
    // between, never threatening
    let mut board = new_board(7, 6);
    for col in 0..3 {
        assert!(add_piece(&mut board, col, 1));
        assert!(!game_over_check(&board));
        assert!(add_piece(&mut board, 6, 2));
        assert!(!game_over_check(&board));
    }
    assert!(add_piece(&mut board, 3, 1));
    assert!(game_over_check(&board));
}

#[test]
fn horizontal_win_found_from_the_middle_of_the_run() {
    // the last move lands inside the run, not at an end
    let mut board = new_board(7, 6);
    assert!(add_piece(&mut board, 1, 1));
    assert!(add_piece(&mut board, 2, 1));
    assert!(add_piece(&mut board, 4, 1));
    assert!(!game_over_check(&board));
    assert!(add_piece(&mut board, 3, 1));
    assert!(game_over_check(&board));
}

#[test]
fn vertical_win_scenario() {
    // player 1 drops into column 3 four times in a row
    let mut board = new_board(7, 6);
    for _ in 0..3 {
        assert!(add_piece(&mut board, 3, 1));
        assert!(!game_over_check(&board));
    }
    assert!(add_piece(&mut board, 3, 1));
    assert!(game_over_check(&board));
}

#[test]
fn vertical_run_of_mixed_colors_does_not_win() {
    let mut board = new_board(7, 6);
    assert!(add_piece(&mut board, 2, 1));
    assert!(add_piece(&mut board, 2, 1));
    assert!(add_piece(&mut board, 2, 2));
    assert!(add_piece(&mut board, 2, 2));
    assert!(!game_over_check(&board));
}

#[test]
fn falling_diagonal_win() {
    // player 1 on the diagonal from (top-left-most of the four) down
    // to the right: columns 0..4 stacked to heights 4, 3, 2, 1
    let mut board = new_board(7, 6);
    for col in 0..4 {
        for _ in 0..(3 - col) {
            assert!(add_piece(&mut board, col, 2));
        }
        assert!(add_piece(&mut board, col, 1));
        if col < 3 {
            assert!(!game_over_check(&board));
        }
    }
    assert!(game_over_check(&board));
}

#[test]
fn rising_diagonal_win() {
    // player 1 on the diagonal rising to the right: columns 3..7
    // stacked to heights 1, 2, 3, 4
    let mut board = new_board(7, 6);
    for i in 0..4 {
        let col = 3 + i;
        for _ in 0..i {
            assert!(add_piece(&mut board, col, 2));
        }
        assert!(add_piece(&mut board, col, 1));
        if i < 3 {
            assert!(!game_over_check(&board));
        }
    }
    assert!(game_over_check(&board));
}

#[test]
fn three_in_a_row_everywhere_is_not_a_win() {
    let mut board = new_board(7, 6);
    assert!(add_piece(&mut board, 0, 1));
    assert!(add_piece(&mut board, 1, 1));
    assert!(add_piece(&mut board, 2, 1));
    assert!(!game_over_check(&board));
}

#[test]
fn draw_scenario_fills_the_board_without_a_win() {
    let mut board = new_board(7, 6);
    for c in 0..7 {
        for k in 0..6 {
            assert!(add_piece(&mut board, c, draw_pattern(c, k)));
            assert!(!game_over_check(&board));
        }
    }
    assert_eq!(get_empty_columns(&board), Vec::<usize>::new());
}

#[test]
fn game_over_status_reports_the_winner_by_turn_parity() {
    let mut board = new_board(7, 6);
    for _ in 0..4 {
        assert!(add_piece(&mut board, 3, 1));
    }
    // player 1 moved on turn 7; the loop's counter now reads 8
    assert_eq!(is_game_over(&board, 8), 1);
    // had the same position arisen from an even turn, player 2 won
    assert_eq!(is_game_over(&board, 7), 2);
}

#[test]
fn game_over_status_is_zero_while_the_game_goes_on() {
    let mut board = new_board(7, 6);
    assert!(add_piece(&mut board, 0, 1));
    assert_eq!(is_game_over(&board, 2), 0);
}

#[test]
fn game_over_status_is_a_draw_past_the_last_turn() {
    let board = new_board(7, 6);
    assert_eq!(is_game_over(&board, 43), 3);
}
