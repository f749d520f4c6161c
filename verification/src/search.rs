//! The depth-limited minimax engine.

use vstd::prelude::*;

use crate::board::Board;
use crate::board::BoardModel;
use crate::board::add_piece;
use crate::board::clone_board;
use crate::board::get_empty_columns;
use crate::board::lemma_apply_undo_round_trip;
use crate::board::lemma_playable_cols;
use crate::board::undo_move;
use crate::player::Player;
use crate::player::other_piece;
use crate::player::random_below;
use crate::win::game_over_check;
use crate::win::move_wins;
use crate::win::wins_now;

verus! {

/// The search horizon of the minimax strategy, in plies.
pub const SEARCH_DEPTH: i32 = 3;

/// Folds two child scores: the maximum when the mover is the searching
/// player, the minimum when it is the opponent.
pub open spec fn combine(maximizing: bool, a: int, b: int) -> int {
    if maximizing {
        if a >= b {
            a
        } else {
            b
        }
    } else {
        if a <= b {
            a
        } else {
            b
        }
    }
}

/// The minimax value of a position for the searching player `mover`,
/// with `color` to move and `depth` plies left.  Zero when the depth is
/// exhausted or no column is playable; otherwise the fold, over the
/// playable columns in ascending order, described by
/// `spec_minimax_scan`.
pub open spec fn spec_minimax(m: BoardModel, depth: int, color: usize, mover: usize) -> int
    decreases depth, m.playable_cols().len() + 1,
{
    if depth <= 0 {
        0
    } else if m.playable_cols().len() == 0 {
        0
    } else {
        spec_minimax_scan(m, depth, color, mover, m.playable_cols())
    }
}

/// The value of a node, scanning the candidate columns `cols` in order:
/// the first move that completes a run of four settles the node at
/// `100 * depth` for the searching player (`-100 * depth` for the
/// opponent); otherwise each move's value is the minimax value of the
/// resulting position one ply shallower, and the node folds the values
/// with `combine`.
pub open spec fn spec_minimax_scan(
    m: BoardModel,
    depth: int,
    color: usize,
    mover: usize,
    cols: Seq<int>,
) -> int
    decreases depth, cols.len(),
{
    if depth <= 0 || cols.len() == 0 {
        0
    } else {
        let c = cols[0];
        if move_wins(m, c, color) {
            if color == mover {
                100 * depth
            } else {
                -100 * depth
            }
        } else {
            let s = spec_minimax(m.apply_at(c, color), depth - 1, other_piece(color), mover);
            if cols.len() == 1 {
                s
            } else {
                combine(
                    color == mover,
                    s,
                    spec_minimax_scan(m, depth, color, mover, cols.subrange(1, cols.len() as int)),
                )
            }
        }
    }
}

proof fn lemma_scan_bounded(m: BoardModel, depth: int, color: usize, mover: usize, cols: Seq<int>)
    requires
        depth >= 1,
    ensures
        -100 * depth <= spec_minimax_scan(m, depth, color, mover, cols) <= 100 * depth,
    decreases depth, cols.len(),
{
    if cols.len() > 0 {
        let c = cols[0];
        if !move_wins(m, c, color) {
            lemma_minimax_bounded(m.apply_at(c, color), depth - 1, other_piece(color), mover);
            if cols.len() > 1 {
                lemma_scan_bounded(m, depth, color, mover, cols.subrange(1, cols.len() as int));
            }
        }
    }
}

/// A minimax value never leaves `[-100 * depth, 100 * depth]`.
proof fn lemma_minimax_bounded(m: BoardModel, depth: int, color: usize, mover: usize)
    requires
        depth >= 0,
    ensures
        -100 * depth <= spec_minimax(m, depth, color, mover) <= 100 * depth,
    decreases depth, m.playable_cols().len() + 1,
{
    if depth > 0 && m.playable_cols().len() > 0 {
        lemma_scan_bounded(m, depth, color, mover, m.playable_cols());
    }
}

/// The minimax value of the board for the searching player
/// (`player.player_piece`), with `color` to move and `depth` plies of
/// lookahead left.  Zero at depth zero (no information gained) and on a
/// board with no playable column (a drawn position).
#[verifier::loop_isolation(false)]
pub fn minimax(board: &Board, depth: i32, player: Player, color: usize) -> (score: i32)
    requires
        board.wf(),
        color == 1 || color == 2,
        player.player_piece == 1 || player.player_piece == 2,
        0 <= depth <= 1000000,
    ensures
        score == spec_minimax(board.model(), depth as int, color, player.player_piece),
        depth == 0 ==> score == 0,
        board.model().playable_cols().len() == 0 ==> score == 0,
    decreases depth,
{
    let ghost m = board.model();
    let ghost d = depth as int;
    let ghost mover = player.player_piece;
    let ghost cols = m.playable_cols();

    if depth == 0 {
        return 0;
    }
    let empty = get_empty_columns(board);
    if empty.len() == 0 {
        return 0;
    }
    proof {
        lemma_playable_cols(m);
    }

    let win_score: i32 = 100 * depth;
    let lose_score: i32 = -win_score;
    let mut t_board = clone_board(board);
    let mut best: i32 = 0;
    let mut idx: usize = 0;
    while idx < empty.len()
        invariant
            t_board.wf(),
            t_board.model() == m,
            idx <= cols.len(),
            idx >= 1 ==> -100 * (d - 1) <= best <= 100 * (d - 1),
            1 <= idx < cols.len() ==> spec_minimax_scan(m, d, color, mover, cols) == combine(
                color == mover,
                best as int,
                spec_minimax_scan(m, d, color, mover, cols.subrange(idx as int, cols.len() as int)),
            ),
            idx >= 1 && idx == cols.len() ==> spec_minimax_scan(m, d, color, mover, cols) == best,
        decreases empty@.len() - idx,
    {
        let col = empty[idx];
        proof {
            assert(cols[idx as int] == col as int);
            assert(m.playable(col as int));
        }
        let ok = add_piece(&mut t_board, col, color);
        proof {
            assert(ok);
            assert(t_board.model() == m.apply_at(col as int, color));
        }
        let win = game_over_check(&t_board);
        proof {
            assert(win == move_wins(m, col as int, color));
        }
        if win {
            proof {
                let suffix = cols.subrange(idx as int, cols.len() as int);
                assert(suffix[0] == cols[idx as int]);
                assert(spec_minimax_scan(m, d, color, mover, suffix) == if color == mover {
                    100 * d
                } else {
                    -100 * d
                });
                if idx == 0 {
                    assert(suffix =~= cols);
                }
                assert(spec_minimax(m, d, color, mover) == spec_minimax_scan(
                    m,
                    d,
                    color,
                    mover,
                    cols,
                ));
            }
            if color == player.player_piece {
                return win_score;
            } else {
                return lose_score;
            }
        }
        let next_color = if color == 1 {
            2
        } else {
            1
        };
        let s = minimax(&t_board, depth - 1, player, next_color);
        undo_move(&mut t_board);
        proof {
            lemma_apply_undo_round_trip(m, col as int, color);
            assert(s == spec_minimax(m.apply_at(col as int, color), d - 1, other_piece(color), mover));
            lemma_minimax_bounded(m.apply_at(col as int, color), d - 1, other_piece(color), mover);
        }
        let new_best: i32 = if idx == 0 {
            s
        } else if color == player.player_piece {
            if s > best {
                s
            } else {
                best
            }
        } else {
            if s < best {
                s
            } else {
                best
            }
        };
        proof {
            let suffix = cols.subrange(idx as int, cols.len() as int);
            let tail = cols.subrange(idx as int + 1, cols.len() as int);
            assert(suffix[0] == cols[idx as int]);
            assert(suffix.subrange(1, suffix.len() as int) =~= tail);
            if idx + 1 == cols.len() {
                assert(suffix.len() == 1);
                assert(spec_minimax_scan(m, d, color, mover, suffix) == s);
                if idx == 0 {
                    assert(suffix =~= cols);
                }
            } else {
                assert(spec_minimax_scan(m, d, color, mover, suffix) == combine(
                    color == mover,
                    s as int,
                    spec_minimax_scan(m, d, color, mover, tail),
                ));
                if idx == 0 {
                    assert(suffix =~= cols);
                }
            }
        }
        best = new_best;
        idx += 1;
    }
    proof {
        assert(spec_minimax(m, d, color, mover) == spec_minimax_scan(m, d, color, mover, cols));
    }
    best
}

/// The value the minimax strategy assigns to dropping `piece` into
/// playable column `c`: the opponent moves next, with the full search
/// horizon left.
pub open spec fn minimax_col_value(m: BoardModel, piece: usize, c: int) -> int {
    spec_minimax(m.apply_at(c, piece), SEARCH_DEPTH as int, other_piece(piece), piece)
}

/// `c` is the first playable column, in ascending order, whose minimax
/// value is maximal.
pub open spec fn is_best_minimax_col(m: BoardModel, piece: usize, c: int) -> bool {
    exists|j: int|
        {
            &&& 0 <= j < m.playable_cols().len()
            &&& c == #[trigger] m.playable_cols()[j]
            &&& forall|i: int|
                0 <= i < m.playable_cols().len() ==> minimax_col_value(
                    m,
                    piece,
                    #[trigger] m.playable_cols()[i],
                ) <= minimax_col_value(m, piece, c)
            &&& forall|i: int|
                0 <= i < j ==> minimax_col_value(m, piece, #[trigger] m.playable_cols()[i])
                    < minimax_col_value(m, piece, c)
        }
}

/// What the minimax strategy owes: a column that wins at once when one
/// exists (which of several is random), else the first playable column
/// with the greatest minimax value.
pub open spec fn minimax_choice_ok(m: BoardModel, piece: usize, c: int) -> bool {
    if exists|w: int| #[trigger] wins_now(m, w, piece) {
        wins_now(m, c, piece)
    } else {
        is_best_minimax_col(m, piece, c)
    }
}

/// The minimax strategy's move.  First scans every column for an
/// immediate win and returns one of those at random if any exists.
/// Otherwise values every playable column by minimax and returns the
/// first column with the greatest value: unlike the immediate-win scan,
/// the deeper comparison breaks ties in favor of the first column — a
/// deliberate asymmetry between the two phases.
#[verifier::loop_isolation(false)]
pub fn minimax_move(player: &Player, board: &Board) -> (col: usize)
    requires
        board.wf(),
        player.player_piece == 1 || player.player_piece == 2,
        board.model().playable_cols().len() > 0,
    ensures
        minimax_choice_ok(board.model(), player.player_piece, col as int),
{
    let ghost m = board.model();
    let ghost cols = m.playable_cols();
    let piece = player.player_piece;
    let mut t_board = clone_board(board);

    // scan for immediate wins
    let mut next_turn_wins: Vec<usize> = Vec::new();
    let mut i: usize = 0;
    while i < board.width
        invariant
            t_board.wf(),
            t_board.model() == m,
            i <= board.width,
            forall|t: int|
                0 <= t < next_turn_wins@.len() ==> wins_now(
                    m,
                    (#[trigger] next_turn_wins@[t]) as int,
                    piece,
                ),
            forall|c: int|
                0 <= c < i && #[trigger] wins_now(m, c, piece) ==> next_turn_wins@.len() > 0,
        decreases board.width - i,
    {
        let ok = add_piece(&mut t_board, i, piece);
        if ok {
            let win = game_over_check(&t_board);
            if win {
                next_turn_wins.push(i);
            }
            undo_move(&mut t_board);
            proof {
                lemma_apply_undo_round_trip(m, i as int, piece);
            }
        }
        i += 1;
    }
    if next_turn_wins.len() > 0 {
        let k = random_below(next_turn_wins.len());
        return next_turn_wins[k];
    }
    proof {
        assert forall|w: int| !(#[trigger] wins_now(m, w, piece)) by {
            if !(0 <= w < m.width) {
                assert(!m.playable(w));
            }
        }
    }

    // value every playable column and take the first maximum
    let opponent = if piece == 1 {
        2
    } else {
        1
    };
    proof {
        lemma_playable_cols(m);
    }
    let empty = get_empty_columns(board);
    let mut best_v: i32 = 0;
    let mut best_idx: usize = 0;
    let mut idx: usize = 0;
    while idx < empty.len()
        invariant
            t_board.wf(),
            t_board.model() == m,
            idx <= cols.len(),
            idx >= 1 ==> best_idx < idx,
            idx >= 1 ==> best_v == minimax_col_value(m, piece, cols[best_idx as int]),
            forall|t: int|
                0 <= t < idx ==> minimax_col_value(m, piece, #[trigger] cols[t]) <= best_v,
            forall|t: int|
                0 <= t < best_idx ==> minimax_col_value(m, piece, #[trigger] cols[t]) < best_v,
        decreases empty@.len() - idx,
    {
        let col = empty[idx];
        proof {
            assert(cols[idx as int] == col as int);
            assert(m.playable(col as int));
        }
        let ok = add_piece(&mut t_board, col, piece);
        proof {
            assert(ok);
        }
        let v = minimax(&t_board, SEARCH_DEPTH, *player, opponent);
        undo_move(&mut t_board);
        proof {
            lemma_apply_undo_round_trip(m, col as int, piece);
            assert(v == minimax_col_value(m, piece, col as int));
        }
        if idx == 0 || v > best_v {
            best_v = v;
            best_idx = idx;
        }
        idx += 1;
    }
    let col = empty[best_idx];
    proof {
        assert(cols[best_idx as int] == col as int);
        assert(is_best_minimax_col(m, piece, col as int));
    }
    col
}

} // verus!
