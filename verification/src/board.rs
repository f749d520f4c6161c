//! The board state machine: a rectangular grid of cells, per-column fill
//! counts, and a single-slot record of the most recent move.

use vstd::prelude::*;

verus! {

/// A game board.  Cells hold `0` when empty, or the piece (`1` or `2`) of
/// the player occupying them.  Rows are indexed from the top, so row
/// `height - 1` is the floor.  The grid is stored row-major: the cell at
/// row `r`, column `c` sits at index `r * width + c`.
pub struct Board {
    pub width: usize,
    pub height: usize,
    pub grid: Vec<usize>,
    /// For each column, the number of empty cells remaining above the
    /// stack of pieces; equivalently, the row index at which the topmost
    /// piece of the column sits once one has been placed.
    pub lowest_empty: Vec<usize>,
    /// The most recently played column, or `None` if no move has been
    /// made since the last undo.  Only one ply of history is retained.
    pub last_move: Option<usize>,
}

/// The mathematical image of a board: its dimensions, the grid as a
/// sequence of rows, and the per-column fill counts.
#[verifier::ext_equal]
pub ghost struct BoardModel {
    pub width: int,
    pub height: int,
    pub grid: Seq<Seq<usize>>,
    pub fills: Seq<int>,
}

impl BoardModel {
    /// The contents of the cell at row `r`, column `c`.
    pub open spec fn cell(self, r: int, c: int) -> usize {
        self.grid[r][c]
    }

    pub open spec fn in_bounds(self, r: int, c: int) -> bool {
        0 <= r < self.height && 0 <= c < self.width
    }

    /// A piece can be dropped into column `c`.
    pub open spec fn playable(self, c: int) -> bool {
        0 <= c < self.width && self.fills[c] > 0
    }

    /// Well-formedness: the shape is consistent, and each column is a
    /// stack — the cells at or below the fill line are occupied by a
    /// piece, the cells above it are empty.
    pub open spec fn wf(self) -> bool {
        &&& 0 < self.width
        &&& 0 < self.height
        &&& self.grid.len() == self.height
        &&& forall|r: int| 0 <= r < self.height ==> (#[trigger] self.grid[r]).len() == self.width
        &&& self.fills.len() == self.width
        &&& forall|c: int| 0 <= c < self.width ==> 0 <= #[trigger] self.fills[c] <= self.height
        &&& forall|r: int, c: int|
            0 <= r < self.height && 0 <= c < self.width && r < self.fills[c]
                ==> #[trigger] self.cell(r, c) == 0
        &&& forall|r: int, c: int|
            0 <= r < self.height && 0 <= c < self.width && r >= self.fills[c]
                ==> #[trigger] self.cell(r, c) == 1 || self.cell(r, c) == 2
    }

    /// The board after dropping `piece` into column `c`: the piece lands
    /// on row `fills[c] - 1` and the fill count of `c` drops by one.
    pub open spec fn apply_at(self, c: int, piece: usize) -> BoardModel
        recommends
            self.playable(c),
    {
        let r = self.fills[c] - 1;
        BoardModel {
            grid: self.grid.update(r, self.grid[r].update(c, piece)),
            fills: self.fills.update(c, r),
            ..self
        }
    }

    /// The board after removing the topmost piece of column `c`.
    pub open spec fn unapply_at(self, c: int) -> BoardModel
        recommends
            0 <= c < self.width,
            self.fills[c] < self.height,
    {
        let r = self.fills[c];
        BoardModel {
            grid: self.grid.update(r, self.grid[r].update(c, 0)),
            fills: self.fills.update(c, r + 1),
            ..self
        }
    }

    /// The playable columns among `0 .. n`, in ascending order.
    pub open spec fn playable_cols_below(self, n: int) -> Seq<int>
        decreases n,
    {
        if n <= 0 {
            Seq::empty()
        } else if self.playable(n - 1) {
            self.playable_cols_below(n - 1).push(n - 1)
        } else {
            self.playable_cols_below(n - 1)
        }
    }

    /// All playable columns, in ascending order.
    pub open spec fn playable_cols(self) -> Seq<int> {
        self.playable_cols_below(self.width)
    }

    /// The number of occupied cells among the rows `0 .. r` of column `c`.
    pub open spec fn occupied_below(self, c: int, r: int) -> int
        decreases r,
    {
        if r <= 0 {
            0
        } else {
            self.occupied_below(c, r - 1) + if self.cell(r - 1, c) != 0 {
                1int
            } else {
                0int
            }
        }
    }

    /// The number of occupied cells in column `c`.
    pub open spec fn occupied_count(self, c: int) -> int {
        self.occupied_below(c, self.height)
    }
}

impl Board {
    /// The mathematical image of this board.
    pub open spec fn model(self) -> BoardModel {
        BoardModel {
            width: self.width as int,
            height: self.height as int,
            grid: Seq::new(
                self.height as nat,
                |r: int| Seq::new(self.width as nat, |c: int| self.grid@[r * self.width + c]),
            ),
            fills: Seq::new(self.width as nat, |c: int| self.lowest_empty@[c] as int),
        }
    }

    /// Well-formedness of the concrete board: the stored vectors have the
    /// right lengths, the model is well formed, and `last_move` only
    /// names a column that indeed holds a piece.
    pub open spec fn wf(self) -> bool {
        &&& self.model().wf()
        &&& self.grid@.len() == self.height * self.width
        &&& self.lowest_empty@.len() == self.width
        &&& match self.last_move {
            Some(c) => c < self.width && self.lowest_empty@[c as int] < self.height,
            None => true,
        }
    }
}

/// Row-major indexing stays inside the grid.
pub proof fn lemma_grid_index(w: int, h: int, r: int, c: int)
    by (nonlinear_arith)
    requires
        0 <= r < h,
        0 <= c < w,
    ensures
        0 <= r * w + c,
        r * w + c < h * w,
{
}

/// Row-major indexing is injective on in-bounds coordinates.
pub proof fn lemma_grid_index_injective(w: int, r1: int, c1: int, r2: int, c2: int)
    by (nonlinear_arith)
    requires
        0 <= c1 < w,
        0 <= c2 < w,
        r1 * w + c1 == r2 * w + c2,
    ensures
        r1 == r2,
        c1 == c2,
{
}

proof fn lemma_occupied_below(m: BoardModel, c: int, r: int)
    requires
        m.wf(),
        0 <= c < m.width,
        0 <= r <= m.height,
    ensures
        m.occupied_below(c, r) == if r <= m.fills[c] {
            0int
        } else {
            r - m.fills[c]
        },
    decreases r,
{
    if r > 0 {
        lemma_occupied_below(m, c, r - 1);
    }
}

/// Fill invariant: on a well-formed board the number of occupied cells in
/// each column equals the column's height minus its fill count.  Every
/// operation of the library keeps boards well formed, so this holds after
/// any sequence of valid applies and undos.
pub proof fn lemma_fill_invariant(m: BoardModel, c: int)
    requires
        m.wf(),
        0 <= c < m.width,
    ensures
        m.occupied_count(c) == m.height - m.fills[c],
{
    lemma_occupied_below(m, c, m.height);
}

proof fn lemma_playable_cols_below_props(m: BoardModel, n: int)
    ensures
        forall|i: int| 0 <= i < m.playable_cols_below(n).len() ==> m.playable(
            #[trigger] m.playable_cols_below(n)[i],
        ) && 0 <= m.playable_cols_below(n)[i] < n,
        forall|c: int| 0 <= c < n && #[trigger] m.playable(c) ==> m.playable_cols_below(
            n,
        ).contains(c),
        forall|i: int, j: int|
            #![trigger m.playable_cols_below(n)[i], m.playable_cols_below(n)[j]]
            0 <= i < j < m.playable_cols_below(n).len() ==> m.playable_cols_below(n)[i]
                < m.playable_cols_below(n)[j],
    decreases n,
{
    if n > 0 {
        lemma_playable_cols_below_props(m, n - 1);
        let prev = m.playable_cols_below(n - 1);
        let cur = m.playable_cols_below(n);
        if m.playable(n - 1) {
            assert(cur == prev.push(n - 1));
            assert forall|c: int| 0 <= c < n && #[trigger] m.playable(c) implies cur.contains(
                c,
            ) by {
                if c == n - 1 {
                    assert(cur[prev.len() as int] == c);
                } else {
                    let i = choose|i: int| 0 <= i < prev.len() && prev[i] == c;
                    assert(cur[i] == c);
                }
            }
        } else {
            assert forall|c: int| 0 <= c < n && #[trigger] m.playable(c) implies cur.contains(
                c,
            ) by {
                assert(c != n - 1);
            }
        }
    }
}

/// Every entry of `playable_cols()` is a playable column, and every
/// playable column appears in it.
pub proof fn lemma_playable_cols(m: BoardModel)
    ensures
        forall|i: int| 0 <= i < m.playable_cols().len() ==> m.playable(
            #[trigger] m.playable_cols()[i],
        ),
        forall|c: int| #[trigger] m.playable(c) ==> m.playable_cols().contains(c),
{
    lemma_playable_cols_below_props(m, m.width);
}

/// The entries of `playable_cols()` ascend strictly.
pub proof fn lemma_playable_cols_sorted(m: BoardModel)
    ensures
        forall|i: int, j: int|
            #![trigger m.playable_cols()[i], m.playable_cols()[j]]
            0 <= i < j < m.playable_cols().len() ==> m.playable_cols()[i] < m.playable_cols()[j],
{
    lemma_playable_cols_below_props(m, m.width);
}

/// Dropping a piece into a playable column keeps the board well formed.
pub proof fn lemma_apply_preserves_wf(m: BoardModel, c: int, piece: usize)
    requires
        m.wf(),
        m.playable(c),
        piece == 1 || piece == 2,
    ensures
        m.apply_at(c, piece).wf(),
{
    let m1 = m.apply_at(c, piece);
    let r0 = m.fills[c] - 1;
    assert(0 <= m.fills[c] <= m.height);
    assert forall|r: int| 0 <= r < m1.height implies (#[trigger] m1.grid[r]).len()
        == m1.width by {
        assert(m.grid[r].len() == m.width);
    }
    assert forall|r: int, cc: int|
        0 <= r < m1.height && 0 <= cc < m1.width && r < m1.fills[cc] implies #[trigger] m1.cell(
        r,
        cc,
    ) == 0 by {
        assert(m.cell(r, cc) == if r == r0 && cc == c {
            piece
        } else {
            m1.cell(r, cc)
        });
    }
    assert forall|r: int, cc: int|
        0 <= r < m1.height && 0 <= cc < m1.width && r >= m1.fills[cc] implies #[trigger] m1.cell(
        r,
        cc,
    ) == 1 || m1.cell(r, cc) == 2 by {
        if !(r == r0 && cc == c) {
            assert(m1.cell(r, cc) == m.cell(r, cc));
            assert(r >= m.fills[cc]);
        }
    }
}

/// Removing the topmost piece of a non-empty column keeps the board well
/// formed.
pub proof fn lemma_unapply_preserves_wf(m: BoardModel, c: int)
    requires
        m.wf(),
        0 <= c < m.width,
        m.fills[c] < m.height,
    ensures
        m.unapply_at(c).wf(),
{
    let m1 = m.unapply_at(c);
    let r0 = m.fills[c];
    assert(0 <= m.fills[c] <= m.height);
    assert forall|r: int| 0 <= r < m1.height implies (#[trigger] m1.grid[r]).len()
        == m1.width by {
        assert(m.grid[r].len() == m.width);
    }
    assert forall|r: int, cc: int|
        0 <= r < m1.height && 0 <= cc < m1.width && r < m1.fills[cc] implies #[trigger] m1.cell(
        r,
        cc,
    ) == 0 by {
        if !(r == r0 && cc == c) {
            assert(m1.cell(r, cc) == m.cell(r, cc));
            assert(r < m.fills[cc]);
        }
    }
    assert forall|r: int, cc: int|
        0 <= r < m1.height && 0 <= cc < m1.width && r >= m1.fills[cc] implies #[trigger] m1.cell(
        r,
        cc,
    ) == 1 || m1.cell(r, cc) == 2 by {
        assert(m1.cell(r, cc) == m.cell(r, cc));
        assert(r >= m.fills[cc]);
    }
}

/// Apply/undo round trip: dropping a piece into a playable column and then
/// removing the topmost piece of that column restores the board,
/// cell for cell and fill count for fill count.
pub proof fn lemma_apply_undo_round_trip(m: BoardModel, c: int, piece: usize)
    requires
        m.wf(),
        m.playable(c),
        piece == 1 || piece == 2,
    ensures
        m.apply_at(c, piece).unapply_at(c) == m,
{
    let r = m.fills[c] - 1;
    assert(m.cell(r, c) == 0);
    assert(m.apply_at(c, piece).unapply_at(c).grid[r] =~= m.grid[r]);
    assert(m.apply_at(c, piece).unapply_at(c) =~~= m);
}

/// Creates an empty board of the given dimensions.
pub fn new_board(width: usize, height: usize) -> (board: Board)
    requires
        0 < width,
        0 < height,
        height * width <= usize::MAX,
    ensures
        board.wf(),
        board.width == width,
        board.height == height,
        board.last_move is None,
        forall|r: int, c: int|
            0 <= r < height && 0 <= c < width ==> board.model().cell(r, c) == 0,
        forall|c: int| 0 <= c < width ==> board.model().fills[c] == height,
{
    let total = height * width;
    let mut grid: Vec<usize> = Vec::new();
    while grid.len() < total
        invariant
            grid@.len() <= total,
            forall|i: int| 0 <= i < grid@.len() ==> grid@[i] == 0,
        decreases total - grid@.len(),
    {
        grid.push(0);
    }
    let mut lowest_empty: Vec<usize> = Vec::new();
    while lowest_empty.len() < width
        invariant
            lowest_empty@.len() <= width,
            forall|i: int| 0 <= i < lowest_empty@.len() ==> lowest_empty@[i] == height,
        decreases width - lowest_empty@.len(),
    {
        lowest_empty.push(height);
    }
    let board = Board { width, height, grid, lowest_empty, last_move: None };
    proof {
        assert forall|r: int, c: int|
            0 <= r < height && 0 <= c < width implies board.model().cell(r, c) == 0 by {
            lemma_grid_index(width as int, height as int, r, c);
        }
    }
    board
}

fn copy_vec(v: &Vec<usize>) -> (r: Vec<usize>)
    ensures
        r@ == v@,
{
    let mut r: Vec<usize> = Vec::new();
    let mut i: usize = 0;
    while i < v.len()
        invariant
            i <= v@.len(),
            r@ == v@.subrange(0, i as int),
        decreases v@.len() - i,
    {
        r.push(v[i]);
        i += 1;
        proof {
            assert(r@ =~= v@.subrange(0, i as int));
        }
    }
    proof {
        assert(r@ =~= v@);
    }
    r
}

/// An independent deep copy of the board, sharing no storage with it.
pub fn clone_board(board: &Board) -> (b: Board)
    ensures
        b.width == board.width,
        b.height == board.height,
        b.grid@ == board.grid@,
        b.lowest_empty@ == board.lowest_empty@,
        b.last_move == board.last_move,
        b.model() == board.model(),
        board.wf() ==> b.wf(),
{
    let b = Board {
        width: board.width,
        height: board.height,
        grid: copy_vec(&board.grid),
        lowest_empty: copy_vec(&board.lowest_empty),
        last_move: board.last_move,
    };
    proof {
        assert(b.model() =~~= board.model());
    }
    b
}

/// The playable columns, in ascending order.
pub fn get_empty_columns(board: &Board) -> (cols: Vec<usize>)
    requires
        board.wf(),
    ensures
        cols@.map_values(|c: usize| c as int) == board.model().playable_cols(),
{
    let mut cols: Vec<usize> = Vec::new();
    let mut i: usize = 0;
    while i < board.width
        invariant
            board.wf(),
            i <= board.width,
            cols@.map_values(|c: usize| c as int) == board.model().playable_cols_below(i as int),
        decreases board.width - i,
    {
        if board.lowest_empty[i] > 0 {
            cols.push(i);
            proof {
                assert(cols@.map_values(|c: usize| c as int) =~= board.model()
                    .playable_cols_below(i as int).push(i as int));
            }
        }
        i += 1;
    }
    cols
}

/// Drops `piece` into column `col`.  Fails, mutating nothing, when the
/// column is out of range or already full; otherwise the piece settles on
/// the column's lowest empty cell and the move is recorded in
/// `last_move`.
pub fn add_piece(board: &mut Board, col: usize, piece: usize) -> (ok: bool)
    requires
        old(board).wf(),
        piece == 1 || piece == 2,
    ensures
        final(board).wf(),
        ok == (col < old(board).width && old(board).model().fills[col as int] > 0),
        ok ==> final(board).model() == old(board).model().apply_at(col as int, piece),
        ok ==> final(board).last_move == Some(col),
        ok ==> final(board).width == old(board).width && final(board).height == old(
            board,
        ).height,
        !ok ==> *final(board) == *old(board),
{
    if col >= board.width {
        return false;
    }
    if board.lowest_empty[col] == 0 {
        return false;
    }
    let row = board.lowest_empty[col] - 1;
    let glen = board.grid.len();
    proof {
        let gl = glen as int;
        assert(board.model().fills[col as int] == board.lowest_empty@[col as int]);
        assert(board.model().fills[col as int] <= board.model().height);
        lemma_grid_index(board.width as int, board.height as int, row as int, col as int);
        assert((row as int) * (board.width as int) + (col as int) < gl);
    }
    let idx = row * board.width + col;
    board.grid.set(idx, piece);
    board.lowest_empty.set(col, row);
    board.last_move = Some(col);
    proof {
        let m0 = old(board).model();
        let m1 = board.model();
        assert forall|r: int, c: int|
            0 <= r < m0.height && 0 <= c < m0.width implies m1.grid[r][c] == m0.apply_at(
            col as int,
            piece,
        ).grid[r][c] by {
            lemma_grid_index(m0.width, m0.height, r, c);
            if r * m0.width + c == row * m0.width + col {
                lemma_grid_index_injective(m0.width, r, c, row as int, col as int);
            }
        }
        assert(m1 =~~= m0.apply_at(col as int, piece));
        lemma_apply_preserves_wf(m0, col as int, piece);
    }
    true
}

/// Undoes the most recent move, if one is recorded: clears the cell that
/// move filled, restores the column's fill count, and clears
/// `last_move`.  A no-op when no move is recorded.
pub fn undo_move(board: &mut Board)
    requires
        old(board).wf(),
    ensures
        final(board).wf(),
        old(board).last_move is None ==> *final(board) == *old(board),
        old(board).last_move matches Some(c) ==> final(board).model() == old(
            board,
        ).model().unapply_at(c as int),
        final(board).last_move is None,
        final(board).width == old(board).width,
        final(board).height == old(board).height,
{
    match board.last_move {
        None => {},
        Some(col) => {
            let row = board.lowest_empty[col];
            let glen = board.grid.len();
            proof {
                let gl = glen as int;
                lemma_grid_index(board.width as int, board.height as int, row as int, col as int);
                assert((row as int) * (board.width as int) + (col as int) < gl);
            }
            let idx = row * board.width + col;
            board.grid.set(idx, 0);
            board.lowest_empty.set(col, row + 1);
            board.last_move = None;
            proof {
                let m0 = old(board).model();
                let m1 = board.model();
                assert forall|r: int, c: int|
                    0 <= r < m0.height && 0 <= c < m0.width implies m1.grid[r][c]
                    == m0.unapply_at(col as int).grid[r][c] by {
                    lemma_grid_index(m0.width, m0.height, r, c);
                    if r * m0.width + c == row * m0.width + col {
                        lemma_grid_index_injective(m0.width, r, c, row as int, col as int);
                    }
                }
                assert(m1 =~~= m0.unapply_at(col as int));
                lemma_unapply_preserves_wf(m0, col as int);
            }
        },
    }
}

/// The piece whose turn it is on the given turn number: player 1 moves on
/// odd turns (the game starts on turn 1), player 2 on even turns.
pub fn get_player_piece(turn: i32) -> (piece: usize)
    requires
        turn >= 1,
    ensures
        piece == if (turn - 1) % 2 == 0 {
            1usize
        } else {
            2usize
        },
{
    if (turn - 1) % 2 == 0 {
        1
    } else {
        2
    }
}

} // verus!
