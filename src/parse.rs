//! Reading a board from text: nine lines, a digit `1`-`9` for each given
//! and any other character for an open cell.
use crate::board::{SudokuBoard, empty_cells, in_range, installed, locked_all};
use vstd::prelude::*;
use vstd::string::StrSliceExecFns;

verus! {

/// Whether a character is one of the digits `1` to `9`.
pub open spec fn is_given(c: char) -> bool {
    '1' <= c <= '9'
}

/// The line of character `n`: the number of newlines before it.
pub open spec fn row_at(b: Seq<char>, n: int) -> int
    decreases n,
{
    if n <= 0 {
        0
    } else {
        row_at(b, n - 1) + if b[n - 1] == '\n' {
            1int
        } else {
            0
        }
    }
}

/// The place of character `n` within its line: the number of characters
/// since the last newline.
pub open spec fn col_at(b: Seq<char>, n: int) -> int
    decreases n,
{
    if n <= 0 {
        0
    } else if b[n - 1] == '\n' {
        0
    } else {
        col_at(b, n - 1) + 1
    }
}

/// The `(row, col, value)` triples of the digits among the first `n`
/// characters.
pub open spec fn givens(b: Seq<char>, n: int) -> Seq<(usize, usize, u8)>
    decreases n,
{
    if n <= 0 {
        Seq::empty()
    } else if is_given(b[n - 1]) {
        givens(b, n - 1).push(
            (row_at(b, n - 1) as usize, col_at(b, n - 1) as usize, (b[n - 1] as u32 - 48) as u8),
        )
    } else {
        givens(b, n - 1)
    }
}

/// The triples of all digits of a text.
pub open spec fn text_givens(s: Seq<char>) -> Seq<(usize, usize, u8)> {
    givens(s, s.len() as int)
}

pub proof fn lemma_position_bounds(b: Seq<char>, n: int)
    requires
        0 <= n <= b.len(),
    ensures
        0 <= row_at(b, n) <= n,
        0 <= col_at(b, n) <= n,
    decreases n,
{
    if n > 0 {
        lemma_position_bounds(b, n - 1);
    }
}

/// Reads a board from text. Each digit `1`-`9` is a given at its line and
/// its place within the line (both counted from 0, in characters); every other character
/// is an open cell. The result is `None` exactly when a digit lies outside
/// the nine lines of nine places.
pub fn parse_board(b_string: String) -> (r: Option<SudokuBoard>)
    ensures
        r is Some <==> forall|m: int|
            0 <= m < text_givens(b_string@).len() ==> #[trigger] in_range(
                text_givens(b_string@)[m],
            ),
        r matches Some(board) ==> board.wf() && board@ == locked_all(
            installed(empty_cells(), text_givens(b_string@)),
        ),
{
    let text = b_string.as_str();
    let len = text.unicode_len();
    let ghost b = b_string@;
    let mut row_i: usize = 0;
    let mut col_i: usize = 0;
    let mut known_vec: Vec<(usize, usize, u8)> = Vec::new();
    let mut k: usize = 0;
    while k < len
        invariant
            k <= b.len(),
            len == b.len(),
            b == text@,
            row_i == row_at(b, k as int),
            col_i == col_at(b, k as int),
            known_vec@ == givens(b, k as int),
        decreases b.len() - k,
    {
        proof {
            lemma_position_bounds(b, k as int);
        }
        let ch = text.get_char(k);
        if '1' <= ch && ch <= '9' {
            known_vec.push((row_i, col_i, (ch as u32 - 48) as u8));
        }
        if ch == '\n' {
            row_i += 1;
            col_i = 0;
        } else {
            col_i += 1;
        }
        k += 1;
    }
    assert(known_vec@ == text_givens(b_string@));
    let mut board = SudokuBoard::new_empty_board();
    if board.set_values(known_vec) {
        Some(board)
    } else {
        None
    }
}

} // verus!
