//! Four in a row on a board of six columns and six rows, in which a token
//! falls to the lowest free cell of its column.

use crate::listing::indices_where;
use crate::listing::lemma_indices_where_ascending;
use crate::listing::lemma_indices_where_drop_one;
use crate::listing::lemma_indices_where_members;
use crate::mcts::GeneralGame;
use crate::notation::cell_text;
use crate::notation::fits_slot;
use crate::notation::has_mark_below;
use crate::notation::is_grid_text;
use crate::notation::is_mark;
use crate::notation::mark_token;
use crate::notation::picture;
use crate::notation::token_at;
use vstd::array::spec_array_update;
use vstd::prelude::*;
use vstd::string::StringExecFns;

verus! {

/// The board, row `0` at the top: `1` and `-1` are the players' tokens, `0`
/// is a free cell.
#[derive(Debug, PartialEq)]
pub struct Connect4 {
    pub board: [[i8; 6]; 6],
}

impl Clone for Connect4 {
    fn clone(&self) -> (copy: Self)
        ensures
            copy == *self,
    {
        Connect4 { board: self.board }
    }
}

/// Whether `text` leaves a cell free below a token: no such position can
/// come about as tokens fall.
pub open spec fn text_has_gap(text: Seq<char>) -> bool {
    exists|col: int, upper: int, lower: int|
        0 <= col < 6 && 0 <= upper < lower < 6 && #[trigger] token_at(text, 6, upper, col) != 0
            && #[trigger] token_at(text, 6, lower, col) == 0
}

/// The number of cells of a line.
///
/// The lines that the score is read from are numbered `0` to `33`: the rows
/// from the top, the columns from the left, the diagonals that fall to the
/// right from the bottom-left corner to the top-right one, and the diagonals
/// that fall to the left from the bottom-right corner to the top-left one.
pub open spec fn line_len(line: int) -> int {
    if line < 12 {
        6
    } else if line < 17 {
        line - 11
    } else if line < 23 {
        23 - line
    } else if line < 28 {
        line - 22
    } else {
        34 - line
    }
}

/// Row and column of the cell at position `pos` of a line, counted from the
/// line's upper end.
pub open spec fn line_cell(line: int, pos: int) -> (int, int) {
    if line < 6 {
        (line, pos)
    } else if line < 12 {
        (pos, line - 6)
    } else if line < 17 {
        (17 - line + pos, pos)
    } else if line < 23 {
        (pos, line - 17 + pos)
    } else if line < 28 {
        (28 - line + pos, 5 - pos)
    } else {
        (pos, 33 - line - pos)
    }
}

/// Whether the window `(line, end)` comes before `(other, other_end)` when
/// the lines are walked in turn, each from its upper end.
pub open spec fn scanned_before(line: int, end: int, other: int, other_end: int) -> bool {
    line < other || (line == other && end < other_end)
}

fn line_length(line: usize) -> (len: usize)
    requires
        line < 34,
    ensures
        len == line_len(line as int),
        1 <= len <= 6,
{
    if line < 12 {
        6
    } else if line < 17 {
        line - 11
    } else if line < 23 {
        23 - line
    } else if line < 28 {
        line - 22
    } else {
        34 - line
    }
}

fn cell_on_line(line: usize, pos: usize) -> (cell: (usize, usize))
    requires
        line < 34,
        pos < line_len(line as int),
    ensures
        cell.0 == line_cell(line as int, pos as int).0,
        cell.1 == line_cell(line as int, pos as int).1,
        cell.0 < 6,
        cell.1 < 6,
{
    if line < 6 {
        (line, pos)
    } else if line < 12 {
        (pos, line - 6)
    } else if line < 17 {
        (17 - line + pos, pos)
    } else if line < 23 {
        (pos, line - 17 + pos)
    } else if line < 28 {
        (28 - line + pos, 5 - pos)
    } else {
        (pos, 33 - line - pos)
    }
}

impl Connect4 {
    /// The content of the cell at position `pos` of a line.
    pub open spec fn on_line(&self, line: int, pos: int) -> i8 {
        self.board[line_cell(line, pos).0][line_cell(line, pos).1]
    }

    /// Whether the four cells of `line` that end at position `end` all hold
    /// `token`.
    pub open spec fn four_at(&self, line: int, end: int, token: int) -> bool {
        &&& 0 <= line < 34
        &&& 3 <= end < line_len(line)
        &&& self.on_line(line, end) == token
        &&& self.on_line(line, end - 1) == token
        &&& self.on_line(line, end - 2) == token
        &&& self.on_line(line, end - 3) == token
    }

    /// Whether a player has four in a row in the window `(line, end)`.
    pub open spec fn won_at(&self, line: int, end: int) -> bool {
        self.four_at(line, end, 1) || self.four_at(line, end, -1)
    }

    /// Whether the window `(line, end)` is the first one, as the lines are
    /// walked, in which a player has four in a row.
    pub open spec fn first_four_at(&self, line: int, end: int) -> bool {
        &&& self.won_at(line, end)
        &&& forall|l: int, e: int|
            scanned_before(l, e, line, end) ==> !#[trigger] self.won_at(l, e)
    }

    /// The player who has four in a row; where both have, the one whose four
    /// are met first as the lines are walked; `0` where neither has.
    pub open spec fn winner(&self) -> int {
        if exists|l: int, e: int| #[trigger] self.first_four_at(l, e) && self.four_at(l, e, 1) {
            1
        } else if exists|l: int, e: int| #[trigger] self.first_four_at(l, e) {
            -1
        } else {
            0
        }
    }

    /// The cell with number `k`, the cells counted row by row from the top.
    pub open spec fn cell(&self, k: int) -> i8 {
        self.board[k / 6][k % 6]
    }

    /// The cells of the board as a function of row and column.
    pub open spec fn cells(&self) -> spec_fn(int, int) -> i8 {
        |row: int, col: int| self.board[row][col]
    }

    /// The columns whose top cell is free, from the left.
    pub open spec fn free_columns(&self) -> Seq<usize> {
        indices_where(6, |col: int| self.board[0][col] == 0)
    }

    /// The number of free cells.
    pub open spec fn free_count(&self) -> nat {
        indices_where(36, |k: int| self.cell(k) == 0).len()
    }

    /// The row in which a token comes to rest in `col`: that of the lowest
    /// free cell.
    pub open spec fn landing_row(&self, col: int) -> int {
        if self.board[5][col] == 0 {
            5
        } else if self.board[4][col] == 0 {
            4
        } else if self.board[3][col] == 0 {
            3
        } else if self.board[2][col] == 0 {
            2
        } else if self.board[1][col] == 0 {
            1
        } else {
            0
        }
    }

    /// The board with `token` in the cell at `row` and `col`.
    pub open spec fn with_cell(&self, row: int, col: int, token: i8) -> Connect4 {
        Connect4 {
            board: spec_array_update(
                self.board,
                row,
                spec_array_update(self.board[row], col, token),
            ),
        }
    }

    /// Whether a cell is free below a token.
    pub open spec fn has_gap(&self) -> bool {
        exists|col: int, upper: int, lower: int|
            0 <= col < 6 && 0 <= upper < lower < 6 && #[trigger] self.board[upper][col] != 0
                && #[trigger] self.board[lower][col] == 0
    }

    /// The legal moves are the columns whose top cell is free, each once and
    /// from the left.
    pub proof fn lemma_legal_moves(&self)
        ensures
            forall|m: usize| #[trigger]
                self.legal_moves().contains(m) <==> m < 6 && self.board[0][m as int] == 0,
            forall|a: int, b: int|
                0 <= a < b < self.legal_moves().len() ==> (#[trigger] self.legal_moves()[a])
                    < (#[trigger] self.legal_moves()[b]),
    {
        let free = |col: int| self.board[0][col] == 0;
        lemma_indices_where_members(6, free);
        lemma_indices_where_ascending(6, free);
    }

    /// On a board without gaps there is no legal move if and only if the
    /// board is full.
    pub proof fn lemma_no_move_iff_full(&self)
        requires
            !self.has_gap(),
        ensures
            self.legal_moves().len() == 0 <==> forall|row: int, col: int|
                0 <= row < 6 && 0 <= col < 6 ==> #[trigger] self.board[row][col] != 0,
    {
        self.lemma_legal_moves();
        if self.legal_moves().len() == 0 {
            assert forall|row: int, col: int| 0 <= row < 6 && 0 <= col < 6 implies #[trigger]
                self.board[row][col] != 0 by {
                assert(!self.legal_moves().contains(col as usize));
            }
        } else {
            let first = self.legal_moves()[0];
            assert(self.legal_moves().contains(first));
        }
    }

    /// A token that falls into a board without gaps leaves no gap.
    pub proof fn lemma_move_leaves_no_gap(&self, index: usize, player: i8)
        requires
            !self.has_gap(),
            self.legal_moves().contains(index),
            player != 0,
        ensures
            !self.after_move(index, player).has_gap(),
    {
        let after = self.after_move(index, player);
        self.lemma_legal_moves();
        if after.has_gap() {
            // the free cell of a gap was free before, and the token above it
            // is not the new one, below which no cell is free
            let (col, upper, lower) = choose|col: int, upper: int, lower: int|
                0 <= col < 6 && 0 <= upper < lower < 6 && #[trigger] after.board[upper][col] != 0
                    && #[trigger] after.board[lower][col] == 0;
            assert(self.board[lower][col] == 0);
            assert(self.board[upper][col] != 0);
        }
    }

    /// Reads a board from its text form, from which rows and cells may be
    /// missing at the end: they stay free. The text must hold no token below
    /// the sixth row, where the board has no cell. `None` where a character
    /// stands where it may not, or where a cell is free below a token.
    pub fn from_string(val: &str) -> (parsed: Option<Connect4>)
        requires
            !has_mark_below(val@, 6),
        ensures
            parsed is Some <==> is_grid_text(val@, 6) && !text_has_gap(val@),
            parsed matches Some(connect4) ==> {
                &&& !connect4.has_gap()
                &&& forall|row: int, col: int|
                    0 <= row < 6 && 0 <= col < 6 ==> #[trigger] connect4.board[row][col]
                        == token_at(val@, 6, row, col)
            },
    {
        let mut connect4 = Connect4 { board: [[0; 6]; 6] };
        let n = val.unicode_len();
        let mut i: usize = 0;
        while i < n
            invariant
                i <= n,
                n == val@.len(),
                !has_mark_below(val@, 6),
                forall|j: int| 0 <= j < i ==> fits_slot(val@, j, 6),
                forall|row: int, col: int|
                    0 <= row < 6 && 0 <= col < 6 ==> #[trigger] connect4.board[row][col] == (if row
                        * 7 + col < i {
                        mark_token(val@[row * 7 + col])
                    } else {
                        0
                    }),
            decreases n - i,
        {
            let s = val.get_char(i);
            if (i + 1) % 7 == 0 {
                if s != '\n' && s != '\r' {
                    assert(!fits_slot(val@, i as int, 6));
                    return None;
                }
            } else {
                if s != '.' {
                    let target: i8 = match s {
                        'X' => 1i8,
                        'O' => -1i8,
                        _ => {
                            assert(!fits_slot(val@, i as int, 6));
                            return None;
                        },
                    };
                    let x = i % 7;
                    let y = i / 7;
                    connect4.board[y][x] = target;
                }
            }
            i += 1;
        }
        // check for gaps
        let mut col: usize = 0;
        while col < 6
            invariant
                col <= 6,
                forall|r: int, c: int|
                    0 <= r < 6 && 0 <= c < 6 ==> #[trigger] connect4.board[r][c] == token_at(
                        val@,
                        6,
                        r,
                        c,
                    ),
                forall|c: int, upper: int, lower: int|
                    0 <= c < col && 0 <= upper < lower < 6 ==> !(
                    #[trigger] connect4.board[upper][c] != 0 && #[trigger] connect4.board[lower][c]
                        == 0),
            decreases 6 - col,
        {
            let mut gap = false;
            let mut row: usize = 6;
            while row > 0
                invariant
                    col < 6,
                    row <= 6,
                    forall|r: int, c: int|
                        0 <= r < 6 && 0 <= c < 6 ==> #[trigger] connect4.board[r][c] == token_at(
                            val@,
                            6,
                            r,
                            c,
                        ),
                    gap <==> exists|lower: int|
                        row <= lower < 6 && #[trigger] connect4.board[lower][col as int] == 0,
                    forall|upper: int, lower: int|
                        row <= upper < lower < 6 ==> !(#[trigger] connect4.board[upper][col as int]
                            != 0 && #[trigger] connect4.board[lower][col as int] == 0),
                decreases row,
            {
                row -= 1;
                if connect4.board[row][col] == 0 {
                    gap = true;
                }
                if connect4.board[row][col] != 0 && gap {
                    proof {
                        let lower = choose|lower: int|
                            row < lower < 6 && #[trigger] connect4.board[lower][col as int] == 0;
                    }
                    return None;
                }
            }
            col += 1;
        }
        proof {
            if text_has_gap(val@) {
                let (c, upper, lower) = choose|c: int, upper: int, lower: int|
                    0 <= c < 6 && 0 <= upper < lower < 6 && #[trigger] token_at(val@, 6, upper, c)
                        != 0 && #[trigger] token_at(val@, 6, lower, c) == 0;
                assert(connect4.board[upper][c] != 0);
                assert(connect4.board[lower][c] == 0);
            }
        }
        Some(connect4)
    }

    /// The board on which no token has been played.
    pub fn empty() -> (connect4: Connect4)
        ensures
            forall|row: int, col: int|
                0 <= row < 6 && 0 <= col < 6 ==> #[trigger] connect4.board[row][col] == 0,
            !connect4.has_gap(),
    {
        Connect4 { board: [[0; 6]; 6] }
    }

    /// Hands each player's tokens to the other player.
    pub fn flip(&mut self)
        requires
            forall|row: int, col: int|
                0 <= row < 6 && 0 <= col < 6 ==> #[trigger] old(self).board[row][col] != i8::MIN,
        ensures
            forall|row: int, col: int|
                0 <= row < 6 && 0 <= col < 6 ==> #[trigger] final(self).board[row][col] == -old(
                    self,
                ).board[row][col],
    {
        let mut i: usize = 0;
        while i < 6
            invariant
                i <= 6,
                forall|row: int, col: int|
                    0 <= row < 6 && 0 <= col < 6 ==> #[trigger] old(self).board[row][col]
                        != i8::MIN,
                forall|row: int, col: int|
                    0 <= row < 6 && 0 <= col < 6 ==> #[trigger] self.board[row][col] == if row
                        < i {
                        -old(self).board[row][col]
                    } else {
                        old(self).board[row][col] as int
                    },
            decreases 6 - i,
        {
            let mut j: usize = 0;
            while j < 6
                invariant
                    i < 6,
                    j <= 6,
                    forall|row: int, col: int|
                        0 <= row < 6 && 0 <= col < 6 ==> #[trigger] old(self).board[row][col]
                            != i8::MIN,
                    forall|row: int, col: int|
                        0 <= row < 6 && 0 <= col < 6 ==> #[trigger] self.board[row][col] == if row
                            < i || (row == i && col < j) {
                            -old(self).board[row][col]
                        } else {
                            old(self).board[row][col] as int
                        },
                decreases 6 - j,
            {
                self.board[i][j] = -self.board[i][j];
                j += 1;
            }
            i += 1;
        }
    }

    /// The picture of the board: see `picture`.
    pub fn to_string(&self) -> (text: String)
        ensures
            text@ == picture(self.cells(), 6),
    {
        let ghost whole = picture(self.cells(), 6);
        let mut text = String::new();
        let mut i: usize = 0;
        while i < 6
            invariant
                i <= 6,
                whole == picture(self.cells(), 6),
                text@ == whole.subrange(0, 13 * i),
            decreases 6 - i,
        {
            let mut j: usize = 0;
            while j < 6
                invariant
                    i < 6,
                    j <= 6,
                    whole == picture(self.cells(), 6),
                    text@ == whole.subrange(0, 13 * i + 2 * j),
                decreases 6 - j,
            {
                text.append(cell_text(self.board[i][j]));
                j += 1;
            }
            proof {
                reveal_strlit("\n");
            }
            text.append("\n");
            i += 1;
        }
        text
    }
}

impl GeneralGame for Connect4 {
    open spec fn outcome(&self) -> int {
        self.winner()
    }

    open spec fn legal_moves(&self) -> Seq<usize> {
        self.free_columns()
    }

    open spec fn after_move(&self, index: usize, player: i8) -> Self {
        self.with_cell(self.landing_row(index as int), index as int, player)
    }

    open spec fn moves_left(&self) -> nat {
        self.free_count()
    }

    proof fn lemma_outcome_range(&self) {
    }

    proof fn lemma_move_uses_up(&self, index: usize, player: i8) {
        let after = self.after_move(index, player);
        let gone = self.landing_row(index as int) * 6 + index;
        lemma_indices_where_members(6, |col: int| self.board[0][col] == 0);
        assert(gone / 6 == self.landing_row(index as int) && gone % 6 == index);
        lemma_indices_where_drop_one(
            36,
            |k: int| self.cell(k) == 0,
            |k: int| after.cell(k) == 0,
            gone,
        );
    }

    proof fn lemma_clone_is_equal(&self, copy: &Self) {
    }

    fn get_score(&self) -> (score: i8) {
        let mut line: usize = 0;
        while line < 34
            invariant
                line <= 34,
                forall|l: int, e: int| l < line ==> !#[trigger] self.won_at(l, e),
            decreases 34 - line,
        {
            let len = line_length(line);
            let mut count_1: u8 = 0;
            let mut count_n1: u8 = 0;
            let mut pos: usize = 0;
            while pos < len
                invariant
                    line < 34,
                    len == line_len(line as int),
                    pos <= len,
                    count_1 <= 3,
                    count_n1 <= 3,
                    count_1 <= pos,
                    count_n1 <= pos,
                    forall|q: int|
                        pos - count_1 <= q < pos ==> #[trigger] self.on_line(line as int, q) == 1,
                    forall|q: int|
                        pos - count_n1 <= q < pos ==> #[trigger] self.on_line(line as int, q) == -1,
                    count_1 < pos ==> self.on_line(line as int, pos - 1 - count_1) != 1,
                    count_n1 < pos ==> self.on_line(line as int, pos - 1 - count_n1) != -1,
                    forall|l: int, e: int|
                        scanned_before(l, e, line as int, pos as int) ==> !#[trigger] self.won_at(
                            l,
                            e,
                        ),
                decreases len - pos,
            {
                let (row, col) = cell_on_line(line, pos);
                let token = self.board[row][col];
                if token == -1 {
                    count_n1 += 1;
                } else {
                    count_n1 = 0;
                }
                if token == 1 {
                    count_1 += 1;
                } else {
                    count_1 = 0;
                }
                if count_1 >= 4 {
                    assert(self.first_four_at(line as int, pos as int));
                    return 1;
                }
                if count_n1 >= 4 {
                    assert(self.first_four_at(line as int, pos as int));
                    return -1;
                }
                pos += 1;
            }
            line += 1;
        }
        0
    }

    fn get_available(&self) -> (available: Vec<usize>) {
        let ghost free = |col: int| self.board[0][col] == 0;
        let mut available: Vec<usize> = Vec::new();
        let mut col: usize = 0;
        while col < 6
            invariant
                col <= 6,
                free == |col: int| self.board[0][col] == 0,
                available@ == indices_where(col as nat, free),
            decreases 6 - col,
        {
            if self.board[0][col] == 0 {
                available.push(col);
            }
            col += 1;
        }
        available
    }

    fn update(&mut self, index: usize, player: i8)
        ensures
            !old(self).has_gap() ==> !final(self).has_gap(),
    {
        proof {
            lemma_indices_where_members(6, |col: int| self.board[0][col] == 0);
            self.lemma_move_uses_up(index, player);
            if !self.has_gap() {
                self.lemma_move_leaves_no_gap(index, player);
            }
        }
        let mut row: usize = 6;
        while row > 0
            invariant
                row <= 6,
                index < 6,
                player == 1 || player == -1,
                *self == *old(self),
                self.after_move(index, player).moves_left() < self.moves_left(),
                !self.has_gap() ==> !self.after_move(index, player).has_gap(),
                self.board[0][index as int] == 0,
                forall|r: int| row <= r < 6 ==> self.board[r][index as int] != 0,
            decreases row,
        {
            row -= 1;
            if self.board[row][index] == 0 {
                self.board[row][index] = player;
                return;
            }
        }
        // not reached: the top cell of the column is free
    }
}

} // verus!
