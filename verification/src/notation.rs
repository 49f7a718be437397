//! The text form of a square board: one line per row, `X` for a token of
//! player `1`, `O` for one of player `-1` and `.` for a free cell.

use vstd::prelude::*;

verus! {

/// Whether `c` ends a row.
pub open spec fn is_break(c: char) -> bool {
    c == '\n' || c == '\r'
}

/// Whether `c` stands for a token.
pub open spec fn is_mark(c: char) -> bool {
    c == 'X' || c == 'O'
}

/// The token that `c` stands for, `0` where it stands for none.
pub open spec fn mark_token(c: char) -> i8 {
    if c == 'X' {
        1
    } else if c == 'O' {
        -1i8
    } else {
        0
    }
}

/// Whether position `i` of a text whose rows have `width` cells is where a
/// row ends.
pub open spec fn is_break_slot(i: int, width: int) -> bool {
    (i + 1) % (width + 1) == 0
}

/// Whether the character at position `i` may stand there: a row's end after
/// each `width` cells, and a cell everywhere else.
pub open spec fn fits_slot(text: Seq<char>, i: int, width: int) -> bool {
    if is_break_slot(i, width) {
        is_break(text[i])
    } else {
        text[i] == '.' || is_mark(text[i])
    }
}

/// Whether every character of `text` may stand where it does.
pub open spec fn is_grid_text(text: Seq<char>, width: int) -> bool {
    forall|i: int| 0 <= i < text.len() ==> fits_slot(text, i, width)
}

/// Whether `text` holds a token below the last of `width` rows, with every
/// character before it standing where it may.
pub open spec fn has_mark_below(text: Seq<char>, width: int) -> bool {
    exists|i: int|
        {
            &&& width * (width + 1) <= i < text.len()
            &&& !is_break_slot(i, width)
            &&& is_mark(#[trigger] text[i])
            &&& forall|j: int| 0 <= j < i ==> fits_slot(text, j, width)
        }
}

/// The token that `text` gives the cell in `row` and `col`: that of the
/// character at its place, and none where the text ends before it.
pub open spec fn token_at(text: Seq<char>, width: int, row: int, col: int) -> i8 {
    let i = row * (width + 1) + col;
    if i < text.len() {
        mark_token(text[i])
    } else {
        0
    }
}

/// The character that shows `token`.
pub open spec fn glyph(token: i8) -> char {
    if token == 1 {
        'X'
    } else if token == -1 {
        'O'
    } else {
        '.'
    }
}

/// The picture of a board of `side` rows and columns whose cells are
/// `cells`: each cell as its `glyph` and a blank, each row ended by a line
/// feed.
pub open spec fn picture(cells: spec_fn(int, int) -> i8, side: int) -> Seq<char> {
    Seq::new(
        (side * (2 * side + 1)) as nat,
        |k: int|
            {
                let row = k / (2 * side + 1);
                let x = k % (2 * side + 1);
                if x == 2 * side {
                    '\n'
                } else if x % 2 == 1 {
                    ' '
                } else {
                    glyph(cells(row, x / 2))
                }
            },
    )
}

/// The two characters that show one cell.
pub fn cell_text(token: i8) -> (text: &'static str)
    ensures
        text@ == seq![glyph(token), ' '],
{
    proof {
        reveal_strlit("X ");
        reveal_strlit("O ");
        reveal_strlit(". ");
    }
    if token == 1 {
        "X "
    } else if token == -1 {
        "O "
    } else {
        ". "
    }
}

} // verus!
