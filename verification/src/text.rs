//! Rendering a board as text: four lines, one per row, each holding the
//! four layers of that row separated by " | ". Black cells show as `O`,
//! White cells as `X`, empty cells as `-`.

use crate::agent::{dec_seq, push_decimal};
use crate::board::Board;
use vstd::prelude::*;
use vstd::string::StringExecFns;

verus! {

/// The character of cell `idx`.
pub open spec fn cell_char(b: Board, idx: int) -> char {
    if (b.black >> (idx as u64)) & 1 == 1 {
        'O'
    } else if (b.white >> (idx as u64)) & 1 == 1 {
        'X'
    } else {
        '-'
    }
}

/// The cell of row `i`, layer `j`, column `k`.
pub open spec fn cell_index(i: int, j: int, k: int) -> int {
    j * 16 + i * 4 + k
}

/// The position in the rendered text of offset `k` within the group of row
/// `i` and layer `j`.
pub open spec fn text_pos(i: int, j: int, k: int) -> int {
    i * 29 + j * 7 + k
}

/// The board drawn as text: for row `i` and layer `j`, the four cells
/// `j*16 + i*4 + k` at positions `i*29 + j*7 + k`, groups separated by
/// " | ", each row ended by a newline.
pub fn board_string(board: &Board) -> (r: String)
    ensures
        r@.len() == 116,
        forall|i: int, j: int, k: int|
            0 <= i < 4 && 0 <= j < 4 && 0 <= k < 4 ==> r@[#[trigger] text_pos(i, j, k)] == cell_char(*board, cell_index(i, j, k)),
        forall|i: int, j: int|
            0 <= i < 4 && 0 <= j < 4 ==> r@[#[trigger] text_pos(i, j, 4)] == ' ' && r@[text_pos(i, j, 5)] == '|' && r@[text_pos(i, j, 6)] == ' ',
        forall|i: int| 0 <= i < 4 ==> r@[#[trigger] text_pos(i, 4, 0)] == '\n',
{
    let mut s = String::new();
    let mut i: u64 = 0;
    while i < 4
        invariant
            i <= 4,
            s@.len() == i * 29,
            forall|i2: int, j2: int, k2: int|
                0 <= i2 < i && 0 <= j2 < 4 && 0 <= k2 < 4 ==> s@[#[trigger] text_pos(
                    i2,
                    j2,
                    k2,
                )] == cell_char(*board, cell_index(i2, j2, k2)),
            forall|i2: int, j2: int|
                0 <= i2 < i && 0 <= j2 < 4 ==> s@[#[trigger] text_pos(i2, j2, 4)] == ' ' && s@[text_pos(
                    i2,
                    j2,
                    5,
                )] == '|' && s@[text_pos(i2, j2, 6)] == ' ',
            forall|i2: int| 0 <= i2 < i ==> s@[#[trigger] text_pos(i2, 4, 0)] == '\n',
        decreases 4 - i,
    {
        let mut j: u64 = 0;
        while j < 4
            invariant
                i < 4,
                j <= 4,
                s@.len() == i * 29 + j * 7,
                forall|i2: int, j2: int, k2: int|
                    0 <= i2 < i && 0 <= j2 < 4 && 0 <= k2 < 4 ==> s@[#[trigger] text_pos(
                        i2,
                        j2,
                        k2,
                    )] == cell_char(*board, cell_index(i2, j2, k2)),
                forall|i2: int, j2: int|
                    0 <= i2 < i && 0 <= j2 < 4 ==> s@[#[trigger] text_pos(i2, j2, 4)] == ' '
                        && s@[text_pos(i2, j2, 5)] == '|' && s@[text_pos(i2, j2, 6)] == ' ',
                forall|i2: int| 0 <= i2 < i ==> s@[#[trigger] text_pos(i2, 4, 0)] == '\n',
                forall|j2: int, k2: int|
                    0 <= j2 < j && 0 <= k2 < 4 ==> s@[#[trigger] text_pos(i as int, j2, k2)] == cell_char(
                        *board,
                        cell_index(i as int, j2, k2),
                    ),
                forall|j2: int|
                    0 <= j2 < j ==> s@[#[trigger] text_pos(i as int, j2, 4)] == ' ' && s@[text_pos(
                        i as int,
                        j2,
                        5,
                    )] == '|' && s@[text_pos(i as int, j2, 6)] == ' ',
            decreases 4 - j,
        {
            let mut k: u64 = 0;
            while k < 4
                invariant
                    i < 4,
                    j < 4,
                    k <= 4,
                    s@.len() == i * 29 + j * 7 + k,
                    forall|i2: int, j2: int, k2: int|
                        0 <= i2 < i && 0 <= j2 < 4 && 0 <= k2 < 4 ==> s@[#[trigger] text_pos(
                            i2,
                            j2,
                            k2,
                        )] == cell_char(*board, cell_index(i2, j2, k2)),
                    forall|i2: int, j2: int|
                        0 <= i2 < i && 0 <= j2 < 4 ==> s@[#[trigger] text_pos(i2, j2, 4)] == ' ' && s@[text_pos(
                            i2,
                            j2,
                            5,
                        )] == '|' && s@[text_pos(i2, j2, 6)] == ' ',
                    forall|i2: int| 0 <= i2 < i ==> s@[#[trigger] text_pos(i2, 4, 0)] == '\n',
                    forall|j2: int, k2: int|
                        0 <= j2 < j && 0 <= k2 < 4 ==> s@[#[trigger] text_pos(i as int, j2, k2)] == cell_char(
                            *board,
                            cell_index(i as int, j2, k2),
                        ),
                    forall|j2: int|
                        0 <= j2 < j ==> s@[#[trigger] text_pos(i as int, j2, 4)] == ' ' && s@[text_pos(
                            i as int,
                            j2,
                            5,
                        )] == '|' && s@[text_pos(i as int, j2, 6)] == ' ',
                    forall|k2: int|
                        0 <= k2 < k ==> s@[#[trigger] text_pos(i as int, j as int, k2)] == cell_char(
                            *board,
                            cell_index(i as int, j as int, k2),
                        ),
                decreases 4 - k,
            {
                let idx = j * 16 + i * 4 + k;
                if (board.black >> idx) & 1 == 1 {
                    s.append("O");
                    proof {
                        reveal_strlit("O");
                    }
                } else if (board.white >> idx) & 1 == 1 {
                    s.append("X");
                    proof {
                        reveal_strlit("X");
                    }
                } else {
                    s.append("-");
                    proof {
                        reveal_strlit("-");
                    }
                }
                k = k + 1;
            }
            s.append(" | ");
            proof {
                reveal_strlit(" | ");
            }
            j = j + 1;
        }
        s.append("\n");
        proof {
            reveal_strlit("\n");
        }
        i = i + 1;
    }
    s
}

impl Board {
    /// The two occupancy masks as decimal numbers joined by a comma.
    pub fn to_string(&self) -> (r: String)
        ensures
            r@ == dec_seq(self.black as nat) + ","@ + dec_seq(self.white as nat),
    {
        let mut s = String::new();
        push_decimal(&mut s, self.black);
        s.append(",");
        push_decimal(&mut s, self.white);
        proof {
            assert(s@ =~= dec_seq(self.black as nat) + ","@ + dec_seq(self.white as nat));
        }
        s
    }
}

} // verus!
