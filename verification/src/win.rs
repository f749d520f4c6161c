//! The win detector: whether the most recently placed piece completed a
//! run of four along any of the four axes, and the game-over status
//! derived from it.

use vstd::prelude::*;

use crate::board::Board;
use crate::board::BoardModel;
use crate::board::lemma_grid_index;

verus! {

/// Four cells in a row horizontally, all holding `piece`, in a window
/// that contains `(r, c)`: the window starts `k` cells to the left of
/// `(r, c)`.
pub open spec fn horiz_run4_through(m: BoardModel, piece: usize, r: int, c: int, k: int) -> bool {
    &&& 0 <= k <= 3
    &&& 0 <= r < m.height
    &&& 0 <= c - k
    &&& c - k + 3 < m.width
    &&& m.cell(r, c - k) == piece
    &&& m.cell(r, c - k + 1) == piece
    &&& m.cell(r, c - k + 2) == piece
    &&& m.cell(r, c - k + 3) == piece
}

/// Four cells in a row vertically, all holding `piece`, in a window that
/// contains `(r, c)`: the window starts `k` cells above `(r, c)`.
pub open spec fn vert_run4_through(m: BoardModel, piece: usize, r: int, c: int, k: int) -> bool {
    &&& 0 <= k <= 3
    &&& 0 <= r - k
    &&& r - k + 3 < m.height
    &&& 0 <= c < m.width
    &&& m.cell(r - k, c) == piece
    &&& m.cell(r - k + 1, c) == piece
    &&& m.cell(r - k + 2, c) == piece
    &&& m.cell(r - k + 3, c) == piece
}

/// Four cells in a row on the falling diagonal (down and to the right),
/// all holding `piece`, in a window that contains `(r, c)`: the window
/// starts `k` steps up and to the left of `(r, c)`.
pub open spec fn ddiag_run4_through(m: BoardModel, piece: usize, r: int, c: int, k: int) -> bool {
    &&& 0 <= k <= 3
    &&& 0 <= r - k
    &&& r - k + 3 < m.height
    &&& 0 <= c - k
    &&& c - k + 3 < m.width
    &&& m.cell(r - k, c - k) == piece
    &&& m.cell(r - k + 1, c - k + 1) == piece
    &&& m.cell(r - k + 2, c - k + 2) == piece
    &&& m.cell(r - k + 3, c - k + 3) == piece
}

/// Four cells in a row on the rising diagonal (down and to the left),
/// all holding `piece`, in a window that contains `(r, c)`: the window
/// starts `k` steps up and to the right of `(r, c)`.
pub open spec fn adiag_run4_through(m: BoardModel, piece: usize, r: int, c: int, k: int) -> bool {
    &&& 0 <= k <= 3
    &&& 0 <= r - k
    &&& r - k + 3 < m.height
    &&& 0 <= c + k - 3
    &&& c + k < m.width
    &&& m.cell(r - k, c + k) == piece
    &&& m.cell(r - k + 1, c + k - 1) == piece
    &&& m.cell(r - k + 2, c + k - 2) == piece
    &&& m.cell(r - k + 3, c + k - 3) == piece
}

/// The piece at `(r, c)` is part of a run of at least four cells holding
/// the same piece along one of the four axes.
pub open spec fn win_at(m: BoardModel, r: int, c: int) -> bool {
    let piece = m.cell(r, c);
    ||| exists|k: int| #[trigger] horiz_run4_through(m, piece, r, c, k)
    ||| exists|k: int| #[trigger] vert_run4_through(m, piece, r, c, k)
    ||| exists|k: int| #[trigger] ddiag_run4_through(m, piece, r, c, k)
    ||| exists|k: int| #[trigger] adiag_run4_through(m, piece, r, c, k)
}

/// The most recent move, if one is recorded, completed a run of four.
/// The topmost piece of the recorded column is the piece that move
/// placed.
pub open spec fn last_move_wins(b: Board) -> bool {
    match b.last_move {
        None => false,
        Some(c) => win_at(b.model(), b.model().fills[c as int], c as int),
    }
}

/// Dropping `piece` into playable column `c` completes a run of four.
pub open spec fn move_wins(m: BoardModel, c: int, piece: usize) -> bool
    recommends
        m.playable(c),
{
    let m2 = m.apply_at(c, piece);
    win_at(m2, m2.fills[c], c)
}

/// Column `c` is playable and wins the game at once for `piece`.
pub open spec fn wins_now(m: BoardModel, c: int, piece: usize) -> bool {
    m.playable(c) && move_wins(m, c, piece)
}

/// Positions `k0` through `k0 + 3` along a line of cells all match.
spec fn run4_on(line: spec_fn(int) -> bool, k0: int) -> bool {
    line(k0) && line(k0 + 1) && line(k0 + 2) && line(k0 + 3)
}

/// On any line of cells, the lengths of the matching runs on either side
/// of position `0` (each capped at 3) decide whether a window of four
/// matching positions containing position `0` exists: one does if and
/// only if the two runs together hold at least three cells.
proof fn lemma_line_win(line: spec_fn(int) -> bool, left: int, right: int)
    requires
        0 <= left <= 3,
        0 <= right <= 3,
        line(0),
        right >= 1 ==> line(1),
        right >= 2 ==> line(2),
        right >= 3 ==> line(3),
        left >= 1 ==> line(-1),
        left >= 2 ==> line(-2),
        left >= 3 ==> line(-3),
        right < 3 ==> !line(right + 1),
        left < 3 ==> !line(-left - 1),
    ensures
        (left + right >= 3) <==> exists|k0: int| k0 <= 0 <= k0 + 3 && #[trigger] run4_on(
            line,
            k0,
        ),
{
    if left + right >= 3 {
        let k0 = if right >= 3 {
            0int
        } else {
            right - 3
        };
        assert(run4_on(line, k0));
    }
    if exists|k0: int| k0 <= 0 <= k0 + 3 && #[trigger] run4_on(line, k0) {
        if left + right < 3 {
            let k0 = choose|k0: int| k0 <= 0 <= k0 + 3 && #[trigger] run4_on(line, k0);
            if k0 <= -left - 1 {
                assert(line(-left - 1)) by {
                    if -left - 1 == k0 {
                    } else if -left - 1 == k0 + 1 {
                    } else if -left - 1 == k0 + 2 {
                    } else {
                        assert(-left - 1 == k0 + 3);
                    }
                }
            } else {
                assert(line(right + 1)) by {
                    if right + 1 == k0 + 1 {
                    } else if right + 1 == k0 + 2 {
                    } else {
                        assert(right + 1 == k0 + 3);
                    }
                }
            }
            assert(false);
        }
    }
}

/// Reads the cell at row `r`, column `c`.
fn cell_at(board: &Board, r: usize, c: usize) -> (p: usize)
    requires
        board.wf(),
        r < board.height,
        c < board.width,
    ensures
        p == board.model().cell(r as int, c as int),
{
    let glen = board.grid.len();
    proof {
        let gl = glen as int;
        lemma_grid_index(board.width as int, board.height as int, r as int, c as int);
        assert((r as int) * (board.width as int) + (c as int) < gl);
    }
    board.grid[r * board.width + c]
}

/// How many consecutive cells to the right of `(r, c)` hold `color`,
/// capped at 3.
fn count_right(board: &Board, r: usize, c: usize, color: usize) -> (n: usize)
    requires
        board.wf(),
        r < board.height,
        c < board.width,
    ensures
        n <= 3,
        c + n < board.model().width,
        n >= 1 ==> board.model().cell(r as int, c + 1) == color,
        n >= 2 ==> board.model().cell(r as int, c + 2) == color,
        n >= 3 ==> board.model().cell(r as int, c + 3) == color,
        n < 3 ==> c + n + 1 >= board.model().width || board.model().cell(r as int, c + n + 1)
            != color,
{
    let mut n: usize = 0;
    while n < 3
        invariant
            board.wf(),
            r < board.height,
            c < board.width,
            n <= 3,
            c + n < board.model().width,
            n >= 1 ==> board.model().cell(r as int, c + 1) == color,
            n >= 2 ==> board.model().cell(r as int, c + 2) == color,
            n >= 3 ==> board.model().cell(r as int, c + 3) == color,
        decreases 3 - n,
    {
        if board.width - c <= n + 1 {
            return n;
        }
        let p = cell_at(board, r, c + n + 1);
        if p != color {
            return n;
        }
        n += 1;
    }
    n
}

/// How many consecutive cells to the left of `(r, c)` hold `color`,
/// capped at 3.
fn count_left(board: &Board, r: usize, c: usize, color: usize) -> (n: usize)
    requires
        board.wf(),
        r < board.height,
        c < board.width,
    ensures
        n <= 3,
        n <= c,
        n >= 1 ==> board.model().cell(r as int, c - 1) == color,
        n >= 2 ==> board.model().cell(r as int, c - 2) == color,
        n >= 3 ==> board.model().cell(r as int, c - 3) == color,
        n < 3 ==> c - n == 0 || board.model().cell(r as int, c - n - 1) != color,
{
    let mut n: usize = 0;
    while n < 3
        invariant
            board.wf(),
            r < board.height,
            c < board.width,
            n <= 3,
            n <= c,
            n >= 1 ==> board.model().cell(r as int, c - 1) == color,
            n >= 2 ==> board.model().cell(r as int, c - 2) == color,
            n >= 3 ==> board.model().cell(r as int, c - 3) == color,
        decreases 3 - n,
    {
        if c - n == 0 {
            return n;
        }
        let p = cell_at(board, r, c - n - 1);
        if p != color {
            return n;
        }
        n += 1;
    }
    n
}

/// How many consecutive cells below `(r, c)` hold `color`, capped at 3.
fn count_down(board: &Board, r: usize, c: usize, color: usize) -> (n: usize)
    requires
        board.wf(),
        r < board.height,
        c < board.width,
    ensures
        n <= 3,
        r + n < board.model().height,
        n >= 1 ==> board.model().cell(r + 1, c as int) == color,
        n >= 2 ==> board.model().cell(r + 2, c as int) == color,
        n >= 3 ==> board.model().cell(r + 3, c as int) == color,
        n < 3 ==> r + n + 1 >= board.model().height || board.model().cell(r + n + 1, c as int)
            != color,
{
    let mut n: usize = 0;
    while n < 3
        invariant
            board.wf(),
            r < board.height,
            c < board.width,
            n <= 3,
            r + n < board.model().height,
            n >= 1 ==> board.model().cell(r + 1, c as int) == color,
            n >= 2 ==> board.model().cell(r + 2, c as int) == color,
            n >= 3 ==> board.model().cell(r + 3, c as int) == color,
        decreases 3 - n,
    {
        if board.height - r <= n + 1 {
            return n;
        }
        let p = cell_at(board, r + n + 1, c);
        if p != color {
            return n;
        }
        n += 1;
    }
    n
}

/// How many consecutive cells down and to the right of `(r, c)` hold
/// `color`, capped at 3.
fn count_down_right(board: &Board, r: usize, c: usize, color: usize) -> (n: usize)
    requires
        board.wf(),
        r < board.height,
        c < board.width,
    ensures
        n <= 3,
        r + n < board.model().height,
        c + n < board.model().width,
        n >= 1 ==> board.model().cell(r + 1, c + 1) == color,
        n >= 2 ==> board.model().cell(r + 2, c + 2) == color,
        n >= 3 ==> board.model().cell(r + 3, c + 3) == color,
        n < 3 ==> r + n + 1 >= board.model().height || c + n + 1 >= board.model().width
            || board.model().cell(r + n + 1, c + n + 1) != color,
{
    let mut n: usize = 0;
    while n < 3
        invariant
            board.wf(),
            r < board.height,
            c < board.width,
            n <= 3,
            r + n < board.model().height,
            c + n < board.model().width,
            n >= 1 ==> board.model().cell(r + 1, c + 1) == color,
            n >= 2 ==> board.model().cell(r + 2, c + 2) == color,
            n >= 3 ==> board.model().cell(r + 3, c + 3) == color,
        decreases 3 - n,
    {
        if board.height - r <= n + 1 {
            return n;
        }
        if board.width - c <= n + 1 {
            return n;
        }
        let p = cell_at(board, r + n + 1, c + n + 1);
        if p != color {
            return n;
        }
        n += 1;
    }
    n
}

/// How many consecutive cells up and to the left of `(r, c)` hold
/// `color`, capped at 3.
fn count_up_left(board: &Board, r: usize, c: usize, color: usize) -> (n: usize)
    requires
        board.wf(),
        r < board.height,
        c < board.width,
    ensures
        n <= 3,
        n <= r,
        n <= c,
        n >= 1 ==> board.model().cell(r - 1, c - 1) == color,
        n >= 2 ==> board.model().cell(r - 2, c - 2) == color,
        n >= 3 ==> board.model().cell(r - 3, c - 3) == color,
        n < 3 ==> r - n == 0 || c - n == 0 || board.model().cell(r - n - 1, c - n - 1) != color,
{
    let mut n: usize = 0;
    while n < 3
        invariant
            board.wf(),
            r < board.height,
            c < board.width,
            n <= 3,
            n <= r,
            n <= c,
            n >= 1 ==> board.model().cell(r - 1, c - 1) == color,
            n >= 2 ==> board.model().cell(r - 2, c - 2) == color,
            n >= 3 ==> board.model().cell(r - 3, c - 3) == color,
        decreases 3 - n,
    {
        if r - n == 0 {
            return n;
        }
        if c - n == 0 {
            return n;
        }
        let p = cell_at(board, r - n - 1, c - n - 1);
        if p != color {
            return n;
        }
        n += 1;
    }
    n
}

/// How many consecutive cells down and to the left of `(r, c)` hold
/// `color`, capped at 3.
fn count_down_left(board: &Board, r: usize, c: usize, color: usize) -> (n: usize)
    requires
        board.wf(),
        r < board.height,
        c < board.width,
    ensures
        n <= 3,
        r + n < board.model().height,
        n <= c,
        n >= 1 ==> board.model().cell(r + 1, c - 1) == color,
        n >= 2 ==> board.model().cell(r + 2, c - 2) == color,
        n >= 3 ==> board.model().cell(r + 3, c - 3) == color,
        n < 3 ==> r + n + 1 >= board.model().height || c - n == 0 || board.model().cell(
            r + n + 1,
            c - n - 1,
        ) != color,
{
    let mut n: usize = 0;
    while n < 3
        invariant
            board.wf(),
            r < board.height,
            c < board.width,
            n <= 3,
            r + n < board.model().height,
            n <= c,
            n >= 1 ==> board.model().cell(r + 1, c - 1) == color,
            n >= 2 ==> board.model().cell(r + 2, c - 2) == color,
            n >= 3 ==> board.model().cell(r + 3, c - 3) == color,
        decreases 3 - n,
    {
        if board.height - r <= n + 1 {
            return n;
        }
        if c - n == 0 {
            return n;
        }
        let p = cell_at(board, r + n + 1, c - n - 1);
        if p != color {
            return n;
        }
        n += 1;
    }
    n
}

/// How many consecutive cells up and to the right of `(r, c)` hold
/// `color`, capped at 3.
fn count_up_right(board: &Board, r: usize, c: usize, color: usize) -> (n: usize)
    requires
        board.wf(),
        r < board.height,
        c < board.width,
    ensures
        n <= 3,
        n <= r,
        c + n < board.model().width,
        n >= 1 ==> board.model().cell(r - 1, c + 1) == color,
        n >= 2 ==> board.model().cell(r - 2, c + 2) == color,
        n >= 3 ==> board.model().cell(r - 3, c + 3) == color,
        n < 3 ==> r - n == 0 || c + n + 1 >= board.model().width || board.model().cell(
            r - n - 1,
            c + n + 1,
        ) != color,
{
    let mut n: usize = 0;
    while n < 3
        invariant
            board.wf(),
            r < board.height,
            c < board.width,
            n <= 3,
            n <= r,
            c + n < board.model().width,
            n >= 1 ==> board.model().cell(r - 1, c + 1) == color,
            n >= 2 ==> board.model().cell(r - 2, c + 2) == color,
            n >= 3 ==> board.model().cell(r - 3, c + 3) == color,
        decreases 3 - n,
    {
        if r - n == 0 {
            return n;
        }
        if board.width - c <= n + 1 {
            return n;
        }
        let p = cell_at(board, r - n - 1, c + n + 1);
        if p != color {
            return n;
        }
        n += 1;
    }
    n
}

/// Whether the most recent move completed a run of four: counts the
/// contiguous same-colored cells on both sides of the placed piece along
/// each axis (only downward for the vertical axis — the cells above a
/// just-placed piece are empty) and declares a win as soon as a count of
/// three matching neighbors is reached.  Returns `false` when no move is
/// recorded.
#[verifier::rlimit(100)]
pub fn game_over_check(board: &Board) -> (win: bool)
    requires
        board.wf(),
    ensures
        win == last_move_wins(*board),
{
    let col: usize = match board.last_move {
        None => {
            return false;
        },
        Some(c) => c,
    };
    let row = board.lowest_empty[col];
    let color = cell_at(board, row, col);
    let ghost m = board.model();
    let ghost rr = row as int;
    let ghost cc = col as int;
    proof {
        assert(m.fills[cc] == rr);
        assert(color == 1 || color == 2);
    }

    // horizontal
    let right = count_right(board, row, col, color);
    let left = count_left(board, row, col, color);
    if left + right >= 3 {
        proof {
            if right >= 3 {
                assert(horiz_run4_through(m, color, rr, cc, 0));
            } else if right == 2 {
                assert(horiz_run4_through(m, color, rr, cc, 1));
            } else if right == 1 {
                assert(horiz_run4_through(m, color, rr, cc, 2));
            } else {
                assert(horiz_run4_through(m, color, rr, cc, 3));
            }
        }
        return true;
    }
    proof {
        let line = |j: int| m.in_bounds(rr, cc + j) && m.cell(rr, cc + j) == color;
        lemma_line_win(line, left as int, right as int);
        assert forall|k: int| !(#[trigger] horiz_run4_through(m, color, rr, cc, k)) by {
            if horiz_run4_through(m, color, rr, cc, k) {
                assert(line(-k) && line(-k + 1) && line(-k + 2) && line(-k + 3));
                assert(run4_on(line, -k));
                assert(false);
            }
        }
    }

    // vertical: only downward; the cells above the placed piece are empty
    if board.height - row > 3 {
        let down = count_down(board, row, col, color);
        if down >= 3 {
            proof {
                assert(vert_run4_through(m, color, rr, cc, 0));
            }
            return true;
        }
        proof {
            let line = |j: int| m.in_bounds(rr + j, cc) && m.cell(rr + j, cc) == color;
            assert(!line(-1)) by {
                if rr >= 1 {
                    assert(m.cell(rr - 1, cc) == 0);
                }
            }
            lemma_line_win(line, 0, down as int);
            assert forall|k: int| !(#[trigger] vert_run4_through(m, color, rr, cc, k)) by {
                if vert_run4_through(m, color, rr, cc, k) {
                    assert(line(-k) && line(-k + 1) && line(-k + 2) && line(-k + 3));
                    assert(run4_on(line, -k));
                    assert(false);
                }
            }
        }
    } else {
        proof {
            assert forall|k: int| !(#[trigger] vert_run4_through(m, color, rr, cc, k)) by {
                if vert_run4_through(m, color, rr, cc, k) {
                    if k >= 1 {
                        assert(m.cell(rr - 1, cc) == color) by {
                            if k == 1 {
                            } else if k == 2 {
                            } else {
                                assert(k == 3);
                            }
                        }
                        assert(m.cell(rr - 1, cc) == 0);
                    }
                    assert(false);
                }
            }
        }
    }

    // falling diagonal: down-right and up-left of the placed piece
    let ddr = count_down_right(board, row, col, color);
    let dul = count_up_left(board, row, col, color);
    if ddr + dul >= 3 {
        proof {
            if ddr >= 3 {
                assert(ddiag_run4_through(m, color, rr, cc, 0));
            } else if ddr == 2 {
                assert(ddiag_run4_through(m, color, rr, cc, 1));
            } else if ddr == 1 {
                assert(ddiag_run4_through(m, color, rr, cc, 2));
            } else {
                assert(ddiag_run4_through(m, color, rr, cc, 3));
            }
        }
        return true;
    }
    proof {
        let line = |j: int| m.in_bounds(rr + j, cc + j) && m.cell(rr + j, cc + j) == color;
        lemma_line_win(line, dul as int, ddr as int);
        assert forall|k: int| !(#[trigger] ddiag_run4_through(m, color, rr, cc, k)) by {
            if ddiag_run4_through(m, color, rr, cc, k) {
                assert(line(-k) && line(-k + 1) && line(-k + 2) && line(-k + 3));
                assert(run4_on(line, -k));
                assert(false);
            }
        }
    }

    // rising diagonal: down-left and up-right of the placed piece
    let ddl = count_down_left(board, row, col, color);
    let dur = count_up_right(board, row, col, color);
    if ddl + dur >= 3 {
        proof {
            if ddl >= 3 {
                assert(adiag_run4_through(m, color, rr, cc, 0));
            } else if ddl == 2 {
                assert(adiag_run4_through(m, color, rr, cc, 1));
            } else if ddl == 1 {
                assert(adiag_run4_through(m, color, rr, cc, 2));
            } else {
                assert(adiag_run4_through(m, color, rr, cc, 3));
            }
        }
        return true;
    }
    proof {
        let line = |j: int| m.in_bounds(rr + j, cc - j) && m.cell(rr + j, cc - j) == color;
        lemma_line_win(line, dur as int, ddl as int);
        assert forall|k: int| !(#[trigger] adiag_run4_through(m, color, rr, cc, k)) by {
            if adiag_run4_through(m, color, rr, cc, k) {
                assert(line(-k) && line(-k + 1) && line(-k + 2) && line(-k + 3));
                assert(run4_on(line, -k));
                assert(false);
            }
        }
    }

    false
}

/// The game-over status once a move has been handled on the given turn
/// (the turn counter is incremented before this check): `0` while the
/// game goes on, `1` when player 1 just won, `2` when player 2 just won,
/// and `3` for a draw once the turn counter exceeds the number of cells.
pub fn is_game_over(board: &Board, turn: i32) -> (status: usize)
    requires
        board.wf(),
        1 <= turn,
        board.height * board.width <= i32::MAX,
    ensures
        turn > board.height * board.width ==> status == 3,
        turn <= board.height * board.width ==> status == (if last_move_wins(*board) {
            if (turn - 1) % 2 == 1 {
                1usize
            } else {
                2usize
            }
        } else {
            0usize
        }),
{
    let total = board.height * board.width;
    if turn > total as i32 {
        return 3;
    }
    let win = game_over_check(board);
    if win {
        if (turn - 1) % 2 == 1 {
            1
        } else {
            2
        }
    } else {
        0
    }
}

} // verus!
