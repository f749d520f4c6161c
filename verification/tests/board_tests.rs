use connect_four::board::Board;
use connect_four::board::add_piece;
use connect_four::board::clone_board;
use connect_four::board::get_empty_columns;
use connect_four::board::get_player_piece;
use connect_four::board::new_board;
use connect_four::board::undo_move;

fn occupied_in_column(board: &Board, c: usize) -> usize {
    let mut count = 0;
    for r in 0..board.height {
        if board.grid[r * board.width + c] != 0 {
            count += 1;
        }
    }
    count
}

fn check_fill_invariant(board: &Board) {
    for c in 0..board.width {
        assert_eq!(
            occupied_in_column(board, c),
            board.height - board.lowest_empty[c]
        );
    }
}

#[test]
fn new_board_is_empty() {
    let board = new_board(7, 6);
    assert_eq!(board.width, 7);
    assert_eq!(board.height, 6);
    assert_eq!(board.last_move, None);
    for cell in &board.grid {
        assert_eq!(*cell, 0);
    }
    for c in 0..7 {
        assert_eq!(board.lowest_empty[c], 6);
    }
    check_fill_invariant(&board);
}

#[test]
fn fill_invariant_holds_through_applies_and_undos() {
    let mut board = new_board(7, 6);
    check_fill_invariant(&board);
    let moves = [3usize, 3, 2, 6, 3, 0, 3];
    let mut piece = 1;
    for &col in moves.iter() {
        assert!(add_piece(&mut board, col, piece));
        check_fill_invariant(&board);
        piece = if piece == 1 { 2 } else { 1 };
    }
    undo_move(&mut board);
    check_fill_invariant(&board);
    undo_move(&mut board);
    check_fill_invariant(&board);
}

#[test]
fn apply_places_on_the_lowest_empty_cell() {
    let mut board = new_board(7, 6);
    assert!(add_piece(&mut board, 2, 1));
    // the floor of column 2 is row 5
    assert_eq!(board.grid[5 * 7 + 2], 1);
    assert_eq!(board.lowest_empty[2], 5);
    assert_eq!(board.last_move, Some(2));
    assert!(add_piece(&mut board, 2, 2));
    assert_eq!(board.grid[4 * 7 + 2], 2);
    assert_eq!(board.lowest_empty[2], 4);
}

#[test]
fn apply_undo_round_trip_restores_the_board() {
    let mut board = new_board(7, 6);
    assert!(add_piece(&mut board, 1, 1));
    assert!(add_piece(&mut board, 4, 2));
    undo_move(&mut board); // settle history
    let before_grid = board.grid.clone();
    let before_fills = board.lowest_empty.clone();
    assert!(add_piece(&mut board, 4, 1));
    undo_move(&mut board);
    assert_eq!(board.grid, before_grid);
    assert_eq!(board.lowest_empty, before_fills);
    assert_eq!(board.last_move, None);
}

#[test]
fn undo_without_a_recorded_move_is_a_no_op() {
    let mut board = new_board(7, 6);
    assert!(add_piece(&mut board, 0, 1));
    undo_move(&mut board);
    let grid = board.grid.clone();
    undo_move(&mut board);
    assert_eq!(board.grid, grid);
    assert_eq!(board.last_move, None);
}

#[test]
fn full_column_is_rejected_without_mutation() {
    let mut board = new_board(7, 6);
    for i in 0..6 {
        let piece = if i % 2 == 0 { 1 } else { 2 };
        assert!(add_piece(&mut board, 5, piece));
    }
    assert_eq!(board.lowest_empty[5], 0);
    let grid = board.grid.clone();
    let fills = board.lowest_empty.clone();
    let last = board.last_move;
    assert!(!add_piece(&mut board, 5, 1));
    assert_eq!(board.grid, grid);
    assert_eq!(board.lowest_empty, fills);
    assert_eq!(board.last_move, last);
}

#[test]
fn out_of_range_column_is_rejected_without_mutation() {
    let mut board = new_board(7, 6);
    let grid = board.grid.clone();
    assert!(!add_piece(&mut board, 7, 1));
    assert!(!add_piece(&mut board, 100, 2));
    assert_eq!(board.grid, grid);
    assert_eq!(board.last_move, None);
}

#[test]
fn playable_columns_are_ascending_and_skip_full_ones() {
    let mut board = new_board(7, 6);
    assert_eq!(get_empty_columns(&board), vec![0, 1, 2, 3, 4, 5, 6]);
    for i in 0..6 {
        let piece = if i % 2 == 0 { 1 } else { 2 };
        assert!(add_piece(&mut board, 3, piece));
    }
    assert_eq!(get_empty_columns(&board), vec![0, 1, 2, 4, 5, 6]);
}

#[test]
fn clone_is_a_deep_independent_copy() {
    let mut board = new_board(7, 6);
    assert!(add_piece(&mut board, 2, 1));
    let mut copy = clone_board(&board);
    assert_eq!(copy.grid, board.grid);
    assert_eq!(copy.lowest_empty, board.lowest_empty);
    assert_eq!(copy.last_move, board.last_move);
    assert!(add_piece(&mut copy, 2, 2));
    assert_eq!(board.grid[4 * 7 + 2], 0);
    assert_eq!(copy.grid[4 * 7 + 2], 2);
    assert_eq!(board.lowest_empty[2], 5);
    assert_eq!(copy.lowest_empty[2], 4);
}

#[test]
fn player_piece_alternates_by_turn() {
    assert_eq!(get_player_piece(1), 1);
    assert_eq!(get_player_piece(2), 2);
    assert_eq!(get_player_piece(3), 1);
    assert_eq!(get_player_piece(4), 2);
    assert_eq!(get_player_piece(41), 1);
    assert_eq!(get_player_piece(42), 2);
}
