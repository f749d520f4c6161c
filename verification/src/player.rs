//! Players and their move-choosing strategies.

use vstd::prelude::*;

use crate::board::Board;
use crate::board::BoardModel;
use crate::board::add_piece;
use crate::board::clone_board;
use crate::board::get_empty_columns;
use crate::board::lemma_apply_undo_round_trip;
use crate::board::lemma_playable_cols;
use crate::board::undo_move;
use crate::win::game_over_check;
use crate::win::move_wins;

verus! {

/// A move-selection policy.  `Human` delegates to whatever collects a
/// column choice from a person; the other three choose a column
/// themselves.
#[derive(Clone, Copy, Debug, PartialEq, Eq, Structural)]
pub enum Strategy {
    Human,
    Random,
    Greedy,
    Minimax,
}

/// A player: a strategy together with the piece (`1` or `2`) it plays.
#[derive(Clone, Copy)]
pub struct Player {
    pub strategy: Strategy,
    pub player_piece: usize,
}

/// Creates a player with the given strategy and piece.
pub fn new_player(strategy: Strategy, player_piece: usize) -> (player: Player)
    ensures
        player.strategy == strategy,
        player.player_piece == player_piece,
{
    Player { strategy, player_piece }
}

/// Relies on rand::random_range with the thread-local generator: the
/// sample lies in the given range.  The range `0 .. n` is nonempty, so
/// the call does not panic.  Nothing more can be said of a random value.
#[verifier::external_body]
pub(crate) fn random_below(n: usize) -> (r: usize)
    requires
        n > 0,
    ensures
        r < n,
{
    rand::random_range(0..n)
}

/// A column drawn uniformly at random from the playable columns.
pub fn random_move(board: &Board) -> (col: usize)
    requires
        board.wf(),
        board.model().playable_cols().len() > 0,
    ensures
        board.model().playable(col as int),
{
    let empty = get_empty_columns(board);
    proof {
        lemma_playable_cols(board.model());
    }
    let k = random_below(empty.len());
    let col = empty[k];
    proof {
        assert(empty@.map_values(|c: usize| c as int)[k as int] == col as int);
        assert(board.model().playable(board.model().playable_cols()[k as int]));
    }
    col
}

/// The first playable column, in ascending order, into which dropping
/// `piece` completes a run of four — or `None` if no such column exists
/// among `cols`.
pub open spec fn first_winning_col(m: BoardModel, piece: usize, cols: Seq<int>) -> Option<int>
    decreases cols.len(),
{
    if cols.len() == 0 {
        None
    } else if move_wins(m, cols[0], piece) {
        Some(cols[0])
    } else {
        first_winning_col(m, piece, cols.subrange(1, cols.len() as int))
    }
}

/// What the greedy strategy owes: the first immediately winning column
/// for the mover if one exists; otherwise the first column where the
/// opponent would win at once (to block it); otherwise any playable
/// column.
pub open spec fn greedy_choice_ok(m: BoardModel, piece: usize, c: int) -> bool {
    match first_winning_col(m, piece, m.playable_cols()) {
        Some(w) => c == w,
        None => match first_winning_col(m, other_piece(piece), m.playable_cols()) {
            Some(w) => c == w,
            None => m.playable(c),
        },
    }
}

/// The opponent of a piece.
pub open spec fn other_piece(piece: usize) -> usize {
    if piece == 1 {
        2usize
    } else {
        1usize
    }
}

/// Looks for an immediate win for the mover among the playable columns;
/// failing that, for an immediate win of the opponent, and blocks the
/// first one found; failing both, moves at random.
#[verifier::loop_isolation(false)]
pub fn randosmart_move(player: &Player, board: &Board) -> (col: usize)
    requires
        board.wf(),
        player.player_piece == 1 || player.player_piece == 2,
        board.model().playable_cols().len() > 0,
    ensures
        greedy_choice_ok(board.model(), player.player_piece, col as int),
{
    let ghost m = board.model();
    let ghost cols = m.playable_cols();
    let piece = player.player_piece;
    let opponent = if piece == 1 {
        2
    } else {
        1
    };
    proof {
        lemma_playable_cols(m);
    }
    let empty = get_empty_columns(board);
    let mut t_board = clone_board(board);
    proof {
        assert(cols.subrange(0, cols.len() as int) =~= cols);
    }

    // immediate win for the mover
    let mut idx: usize = 0;
    while idx < empty.len()
        invariant
            t_board.wf(),
            t_board.model() == m,
            idx <= cols.len(),
            first_winning_col(m, piece, cols.subrange(idx as int, cols.len() as int))
                == first_winning_col(m, piece, cols),
        decreases empty@.len() - idx,
    {
        let col = empty[idx];
        proof {
            assert(cols[idx as int] == col as int);
        }
        let ok = add_piece(&mut t_board, col, piece);
        proof {
            assert(ok);
        }
        let win = game_over_check(&t_board);
        undo_move(&mut t_board);
        proof {
            lemma_apply_undo_round_trip(m, col as int, piece);
            let suffix = cols.subrange(idx as int, cols.len() as int);
            assert(suffix[0] == cols[idx as int]);
            assert(win == move_wins(m, col as int, piece));
            assert(suffix.subrange(1, suffix.len() as int) =~= cols.subrange(
                idx as int + 1,
                cols.len() as int,
            ));
        }
        if win {
            return col;
        }
        idx += 1;
    }
    proof {
        assert(cols.subrange(cols.len() as int, cols.len() as int) =~= Seq::<int>::empty());
        assert(first_winning_col(m, piece, cols) is None);
    }

    // immediate win for the opponent: block it
    proof {
        assert(cols.subrange(0, cols.len() as int) =~= cols);
    }
    let mut idx2: usize = 0;
    while idx2 < empty.len()
        invariant
            t_board.wf(),
            t_board.model() == m,
            idx2 <= cols.len(),
            first_winning_col(m, opponent, cols.subrange(idx2 as int, cols.len() as int))
                == first_winning_col(m, opponent, cols),
        decreases empty@.len() - idx2,
    {
        let col = empty[idx2];
        proof {
            assert(cols[idx2 as int] == col as int);
        }
        let ok = add_piece(&mut t_board, col, opponent);
        proof {
            assert(ok);
        }
        let win = game_over_check(&t_board);
        undo_move(&mut t_board);
        proof {
            lemma_apply_undo_round_trip(m, col as int, opponent);
            let suffix = cols.subrange(idx2 as int, cols.len() as int);
            assert(suffix[0] == cols[idx2 as int]);
            assert(win == move_wins(m, col as int, opponent));
            assert(suffix.subrange(1, suffix.len() as int) =~= cols.subrange(
                idx2 as int + 1,
                cols.len() as int,
            ));
        }
        if win {
            return col;
        }
        idx2 += 1;
    }
    proof {
        assert(cols.subrange(cols.len() as int, cols.len() as int) =~= Seq::<int>::empty());
        assert(first_winning_col(m, opponent, cols) is None);
    }

    // neither: move at random
    random_move(board)
}

/// What each strategy owes of the column it returns.  A human player's
/// column is collected outside the library, so `Human` yields no column
/// here.
pub open spec fn get_move_ok(player: Player, m: BoardModel, r: Option<usize>) -> bool {
    match player.strategy {
        Strategy::Human => r is None,
        Strategy::Random => r matches Some(c) && m.playable(c as int),
        Strategy::Greedy => r matches Some(c) && greedy_choice_ok(m, player.player_piece, c as int),
        Strategy::Minimax => r matches Some(c) && crate::search::minimax_choice_ok(
            m,
            player.player_piece,
            c as int,
        ),
    }
}

/// The move chosen by the player's strategy, or `None` for a human
/// player: a person's choice is read outside the library and checked
/// with `parse_column_choice`.
pub fn get_move(player: &Player, board: &Board) -> (r: Option<usize>)
    requires
        board.wf(),
        player.player_piece == 1 || player.player_piece == 2,
        !(player.strategy is Human) ==> board.model().playable_cols().len() > 0,
    ensures
        get_move_ok(*player, board.model(), r),
{
    match player.strategy {
        Strategy::Human => None,
        Strategy::Random => Some(random_move(board)),
        Strategy::Greedy => Some(randosmart_move(player, board)),
        Strategy::Minimax => Some(crate::search::minimax_move(player, board)),
    }
}

/// Whether every byte is an ASCII decimal digit.
pub open spec fn all_digits(s: Seq<u8>) -> bool {
    forall|i: int| 0 <= i < s.len() ==> 48 <= #[trigger] s[i] <= 57
}

/// The number a string of decimal digits spells.
pub open spec fn digits_val(s: Seq<u8>) -> int
    decreases s.len(),
{
    if s.len() == 0 {
        0
    } else {
        digits_val(s.subrange(0, s.len() - 1)) * 10 + (s[s.len() - 1] - 48)
    }
}

proof fn lemma_digits_val_nonneg(s: Seq<u8>)
    requires
        all_digits(s),
    ensures
        digits_val(s) >= 0,
    decreases s.len(),
{
    if s.len() > 0 {
        lemma_digits_val_nonneg(s.subrange(0, s.len() - 1));
    }
}

proof fn lemma_digits_val_monotone(s: Seq<u8>, k: int)
    requires
        0 <= k <= s.len(),
        all_digits(s),
    ensures
        digits_val(s.subrange(0, k)) <= digits_val(s),
    decreases s.len() - k,
{
    if k == s.len() {
        assert(s.subrange(0, k) =~= s);
    } else {
        assert(s.subrange(0, k + 1).subrange(0, k) =~= s.subrange(0, k));
        lemma_digits_val_nonneg(s.subrange(0, k));
        lemma_digits_val_monotone(s, k + 1);
    }
}

/// Parses a human player's column choice: a string of decimal digits
/// naming a 1-based column in `[1, width]`.  Returns the 0-based column,
/// or `None` when the text is not such a number — the caller re-prompts.
pub fn parse_column_choice(s: &[u8], width: usize) -> (r: Option<usize>)
    ensures
        match r {
            Some(c) => s@.len() > 0 && all_digits(s@) && 1 <= digits_val(s@) <= width && c
                == digits_val(s@) - 1,
            None => s@.len() == 0 || !all_digits(s@) || digits_val(s@) < 1 || digits_val(s@)
                > width,
        },
{
    if s.len() == 0 {
        return None;
    }
    let mut value: usize = 0;
    let mut i: usize = 0;
    while i < s.len()
        invariant
            i <= s@.len(),
            forall|j: int| 0 <= j < i ==> 48 <= #[trigger] s@[j] <= 57,
            value == digits_val(s@.subrange(0, i as int)),
            value <= width,
        decreases s@.len() - i,
    {
        let b = s[i];
        if b < 48 || b > 57 {
            return None;
        }
        let d = (b - 48) as usize;
        proof {
            assert(s@.subrange(0, i as int + 1).subrange(0, i as int) =~= s@.subrange(
                0,
                i as int,
            ));
            assert(s@.subrange(0, i as int + 1)[i as int] == s@[i as int]);
        }
        if value > width / 10 {
            proof {
                if all_digits(s@) {
                    lemma_digits_val_monotone(s@, i as int + 1);
                }
            }
            return None;
        }
        let nv = value * 10;
        if d > width - nv {
            proof {
                if all_digits(s@) {
                    lemma_digits_val_monotone(s@, i as int + 1);
                }
            }
            return None;
        }
        value = nv + d;
        i += 1;
    }
    proof {
        assert(s@.subrange(0, s@.len() as int) =~= s@);
    }
    if value == 0 {
        return None;
    }
    Some(value - 1)
}

} // verus!
