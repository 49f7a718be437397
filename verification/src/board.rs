//! Tic-tac-toe.

use crate::listing::indices_where;
use crate::listing::lemma_indices_where_ascending;
use crate::listing::lemma_indices_where_drop_one;
use crate::listing::lemma_indices_where_members;
use crate::mcts::GeneralGame;
use crate::notation::cell_text;
use crate::notation::fits_slot;
use crate::notation::has_mark_below;
use crate::notation::is_grid_text;
use crate::notation::is_mark;
use crate::notation::mark_token;
use crate::notation::picture;
use crate::notation::token_at;
use vstd::array::spec_array_update;
use vstd::prelude::*;
use vstd::string::StringExecFns;

verus! {

/// The board, row by row: `1` and `-1` are the players' tokens, `0` is a free
/// cell.
#[derive(Debug, PartialEq)]
pub struct Board {
    pub board: [[i8; 3]; 3],
}

impl Clone for Board {
    fn clone(&self) -> (copy: Self)
        ensures
            copy == *self,
    {
        Board { board: self.board }
    }
}

impl Board {
    /// The cell with number `k`, the cells counted row by row.
    pub open spec fn cell(&self, k: int) -> i8 {
        self.board[k / 3][k % 3]
    }

    /// Whether `token` fills a row, a column or a diagonal.
    pub open spec fn has_line(&self, token: int) -> bool {
        ||| exists|i: int|
            0 <= i < 3 && #[trigger] self.board[i][0] == token && self.board[i][1] == token
                && self.board[i][2] == token
        ||| exists|i: int|
            0 <= i < 3 && self.board[0][i] == token && self.board[1][i] == token
                && #[trigger] self.board[2][i] == token
        ||| self.board[0][0] == token && self.board[1][1] == token && self.board[2][2] == token
        ||| self.board[0][2] == token && self.board[1][1] == token && self.board[2][0] == token
    }

    /// The player who has a line of three; player `-1` where both have one;
    /// `0` where neither has.
    pub open spec fn winner(&self) -> int {
        if self.has_line(-1) {
            -1
        } else if self.has_line(1) {
            1
        } else {
            0
        }
    }

    /// The numbers of the free cells, in ascending order.
    pub open spec fn free_cells(&self) -> Seq<usize> {
        indices_where(9, |k: int| self.cell(k) == 0)
    }

    /// Row and column of each free cell, row by row.
    pub open spec fn free_places(&self) -> Seq<(usize, usize)> {
        self.free_cells().map_values(|k: usize| ((k / 3) as usize, (k % 3) as usize))
    }

    /// The board with `token` in the cell at `row` and `col`.
    pub open spec fn with_cell(&self, row: int, col: int, token: i8) -> Board {
        Board {
            board: spec_array_update(
                self.board,
                row,
                spec_array_update(self.board[row], col, token),
            ),
        }
    }

    /// The cells of the board as a function of row and column.
    pub open spec fn cells(&self) -> spec_fn(int, int) -> i8 {
        |row: int, col: int| self.board[row][col]
    }

    /// The legal moves are the numbers of the free cells, each once and in
    /// ascending order, and there is none if and only if the board is full.
    pub proof fn lemma_legal_moves(&self)
        ensures
            forall|m: usize| #[trigger]
                self.legal_moves().contains(m) <==> m < 9 && self.cell(m as int) == 0,
            forall|a: int, b: int|
                0 <= a < b < self.legal_moves().len() ==> (#[trigger] self.legal_moves()[a])
                    < (#[trigger] self.legal_moves()[b]),
            self.legal_moves().len() == 0 <==> forall|k: int|
                0 <= k < 9 ==> #[trigger] self.cell(k) != 0,
    {
        let free = |k: int| self.cell(k) == 0;
        lemma_indices_where_members(9, free);
        lemma_indices_where_ascending(9, free);
        if self.legal_moves().len() == 0 {
            assert forall|k: int| 0 <= k < 9 implies #[trigger] self.cell(k) != 0 by {
                assert(!self.legal_moves().contains(k as usize));
            }
        } else {
            assert(self.cell(self.legal_moves()[0] as int) == 0);
        }
    }

    /// A move uses up its cell and no other: the cell is no legal move
    /// afterwards, and every other move is legal as before.
    pub proof fn lemma_move_uses_cell(&self, index: usize, player: i8)
        requires
            self.legal_moves().contains(index),
            player != 0,
        ensures
            forall|m: usize| #[trigger]
                self.after_move(index, player).legal_moves().contains(m)
                    <==> self.legal_moves().contains(m) && m != index,
    {
        let after = self.after_move(index, player);
        self.lemma_legal_moves();
        after.lemma_legal_moves();
    }

    fn has_line_of(&self, target: i8) -> (found: bool)
        ensures
            found == self.has_line(target as int),
    {
        let mut i: usize = 0;
        while i < 3
            invariant
                i <= 3,
                forall|r: int|
                    0 <= r < i ==> !(#[trigger] self.board[r][0] == target && self.board[r][1]
                        == target && self.board[r][2] == target),
                forall|c: int|
                    0 <= c < i ==> !(self.board[0][c] == target && self.board[1][c] == target
                        && #[trigger] self.board[2][c] == target),
            decreases 3 - i,
        {
            if self.board[i][0] == target && self.board[i][1] == target && self.board[i][2]
                == target {
                return true;
            }
            if self.board[0][i] == target && self.board[1][i] == target && self.board[2][i]
                == target {
                return true;
            }
            i += 1;
        }
        if self.board[0][0] == target && self.board[1][1] == target && self.board[2][2] == target {
            return true;
        }
        if self.board[0][2] == target && self.board[1][1] == target && self.board[2][0] == target {
            return true;
        }
        false
    }

    /// The score of the position: see `winner`.
    pub fn get_score(&self) -> (score: i8)
        ensures
            score == self.winner(),
    {
        if self.has_line_of(-1) {
            return -1;
        }
        if self.has_line_of(1) {
            return 1;
        }
        0
    }

    /// Row and column of each free cell, row by row.
    pub fn get_available(&self) -> (res: Vec<(usize, usize)>)
        ensures
            res@ == self.free_places(),
    {
        let ghost free = |k: int| self.cell(k) == 0;
        let ghost place = |k: usize| ((k / 3) as usize, (k % 3) as usize);
        let mut res: Vec<(usize, usize)> = Vec::new();
        let mut i: usize = 0;
        while i < 3
            invariant
                i <= 3,
                free == |k: int| self.cell(k) == 0,
                place == |k: usize| ((k / 3) as usize, (k % 3) as usize),
                res@ == indices_where((3 * i) as nat, free).map_values(place),
            decreases 3 - i,
        {
            let mut j: usize = 0;
            while j < 3
                invariant
                    i < 3,
                    j <= 3,
                    free == |k: int| self.cell(k) == 0,
                    place == |k: usize| ((k / 3) as usize, (k % 3) as usize),
                    res@ == indices_where((3 * i + j) as nat, free).map_values(place),
                decreases 3 - j,
            {
                if self.board[i][j] == 0 {
                    res.push((i, j));
                }
                j += 1;
            }
            i += 1;
        }
        res
    }

    /// Puts `player` in the free cell at the row and the column `indeces`.
    pub fn update(&mut self, indeces: (usize, usize), player: i8)
        requires
            indeces.0 < 3,
            indeces.1 < 3,
            old(self).board[indeces.0 as int][indeces.1 as int] == 0,
        ensures
            *final(self) == old(self).with_cell(indeces.0 as int, indeces.1 as int, player),
    {
        self.board[indeces.0][indeces.1] = player;
    }

    /// Reads a board from its text form, from which rows and cells may be
    /// missing at the end: they stay free. The text must hold no token below
    /// the third row, where the board has no cell. `None` where a character
    /// stands where it may not.
    pub fn from_string(val: &str) -> (parsed: Option<Board>)
        requires
            !has_mark_below(val@, 3),
        ensures
            parsed is Some <==> is_grid_text(val@, 3),
            parsed matches Some(board) ==> forall|row: int, col: int|
                0 <= row < 3 && 0 <= col < 3 ==> #[trigger] board.board[row][col] == token_at(
                    val@,
                    3,
                    row,
                    col,
                ),
    {
        let mut board = Board { board: [[0; 3]; 3] };
        let n = val.unicode_len();
        let mut i: usize = 0;
        while i < n
            invariant
                i <= n,
                n == val@.len(),
                !has_mark_below(val@, 3),
                forall|j: int| 0 <= j < i ==> fits_slot(val@, j, 3),
                forall|row: int, col: int|
                    0 <= row < 3 && 0 <= col < 3 ==> #[trigger] board.board[row][col] == (if row
                        * 4 + col < i {
                        mark_token(val@[row * 4 + col])
                    } else {
                        0
                    }),
            decreases n - i,
        {
            let s = val.get_char(i);
            if (i + 1) % 4 == 0 {
                if s != '\n' && s != '\r' {
                    assert(!fits_slot(val@, i as int, 3));
                    return None;
                }
            } else {
                if s != '.' {
                    let target: i8 = match s {
                        'X' => 1i8,
                        'O' => -1i8,
                        _ => {
                            assert(!fits_slot(val@, i as int, 3));
                            return None;
                        },
                    };
                    let x = i % 4;
                    let y = i / 4;
                    board.board[y][x] = target;
                }
            }
            i += 1;
        }
        Some(board)
    }

    /// The picture of the board: see `picture`.
    pub fn to_string(&self) -> (text: String)
        ensures
            text@ == picture(self.cells(), 3),
    {
        let ghost whole = picture(self.cells(), 3);
        let mut text = String::new();
        let mut i: usize = 0;
        while i < 3
            invariant
                i <= 3,
                whole == picture(self.cells(), 3),
                text@ == whole.subrange(0, 7 * i),
            decreases 3 - i,
        {
            let mut j: usize = 0;
            while j < 3
                invariant
                    i < 3,
                    j <= 3,
                    whole == picture(self.cells(), 3),
                    text@ == whole.subrange(0, 7 * i + 2 * j),
                decreases 3 - j,
            {
                text.append(cell_text(self.board[i][j]));
                j += 1;
            }
            proof {
                reveal_strlit("\n");
            }
            text.append("\n");
            i += 1;
        }
        text
    }
}

impl GeneralGame for Board {
    open spec fn outcome(&self) -> int {
        self.winner()
    }

    open spec fn legal_moves(&self) -> Seq<usize> {
        self.free_cells()
    }

    open spec fn after_move(&self, index: usize, player: i8) -> Self {
        self.with_cell(index as int / 3, index as int % 3, player)
    }

    open spec fn moves_left(&self) -> nat {
        self.free_cells().len()
    }

    proof fn lemma_outcome_range(&self) {
    }

    proof fn lemma_move_uses_up(&self, index: usize, player: i8) {
        let after = self.after_move(index, player);
        lemma_indices_where_members(9, |k: int| self.cell(k) == 0);
        lemma_indices_where_drop_one(
            9,
            |k: int| self.cell(k) == 0,
            |k: int| after.cell(k) == 0,
            index as int,
        );
    }

    proof fn lemma_clone_is_equal(&self, copy: &Self) {
    }

    fn update(&mut self, index: usize, player: i8) {
        proof {
            lemma_indices_where_members(9, |k: int| self.cell(k) == 0);
            self.lemma_move_uses_up(index, player);
        }
        self.update((index / 3, index % 3), player);
    }

    fn get_score(&self) -> (score: i8) {
        self.get_score()
    }

    fn get_available(&self) -> (available: Vec<usize>) {
        let places = self.get_available();
        let mut available: Vec<usize> = Vec::new();
        proof {
            lemma_indices_where_members(9, |k: int| self.cell(k) == 0);
        }
        let mut n: usize = 0;
        while n < places.len()
            invariant
                n <= places@.len(),
                places@ == self.free_places(),
                forall|k: int|
                    0 <= k < self.free_cells().len() ==> (#[trigger] self.free_cells()[k]) < 9,
                available@ == self.free_cells().subrange(0, n as int),
            decreases places.len() - n,
        {
            let (i, j) = places[n];
            available.push(i * 3 + j);
            n += 1;
        }
        available
    }
}

} // verus!
