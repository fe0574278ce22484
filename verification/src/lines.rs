//! The terminal detector: whether an occupancy mask contains one of the 76
//! winning lines of the cube, computed by a branch-free shift-and-mask
//! formula and specified by the explicit enumeration of the lines.
//!
//! A line is a run of four cells `p, p+s, p+2s, p+3s` for a stride `s`:
//! rows (`s = 1`), in-layer columns (`s = 4`), verticals (`s = 16`),
//! in-layer diagonals (`s = 5`, `s = 3`), column-plane diagonals across
//! layers (`s = 17`, `s = 15`), row-plane diagonals across layers (`s = 20`,
//! `s = 12`), and the four space diagonals (`s = 21`, `s = 19`, `s = 13`,
//! `s = 11`).

use crate::board::{union_of, Board, Player};
use vstd::prelude::*;

verus! {

/// The starting cells of the winning lines of stride `s`: 76 pairs in all.
pub open spec fn is_line(p: u64, s: u64) -> bool {
    ||| (s == 1 && p < 64 && p % 4 == 0)
    ||| (s == 4 && p < 64 && p % 16 < 4)
    ||| (s == 16 && p < 16)
    ||| (s == 5 && p < 64 && p % 16 == 0)
    ||| (s == 3 && p < 64 && p % 16 == 3)
    ||| (s == 17 && p < 16 && p % 4 == 0)
    ||| (s == 15 && p < 16 && p % 4 == 3)
    ||| (s == 20 && p < 4)
    ||| (s == 12 && 12 <= p && p < 16)
    ||| (s == 21 && p == 0)
    ||| (s == 19 && p == 3)
    ||| (s == 13 && p == 12)
    ||| (s == 11 && p == 15)
}

/// The four-bit mask of the line starting at `p` with stride `s`.
pub open spec fn line_mask(p: u64, s: u64) -> u64
    recommends
        p + 3 * s < 64,
{
    (1u64 << p) | (1u64 << ((p + s) as u64)) | (1u64 << ((p + 2 * s) as u64)) | (1u64 << ((p + 3
        * s) as u64))
}

/// The mask contains all four cells of some winning line.
pub open spec fn has_line(m: u64) -> bool {
    exists|p: u64, s: u64| is_line(p, s) && m & #[trigger] line_mask(p, s) == line_mask(p, s)
}

/// The shift-and-mask reduction the detector computes: nonzero exactly when
/// some winning line is fully contained in `m`.
pub open spec fn win_calc(m: u64) -> u64 {
    (m & (m >> 1) & (m >> 2) & (m >> 3) & 0x1111111111111111) | (m & (m >> 4) & (m >> 8) & (m
        >> 12) & 0x000f000f000f000f) | (m & (m >> 16) & (m >> 32) & (m >> 48)
        & 0x000000000000ffff) | (m & (m >> 5) & (m >> 10) & (m >> 15) & 0x0001000100010001) | (m
        & (m >> 3) & (m >> 6) & (m >> 9) & 0x0008000800080008) | (m & (m >> 17) & (m >> 34) & (m
        >> 51) & 0x1111) | (m & (m >> 15) & (m >> 30) & (m >> 45) & 0x8888) | (m & (m >> 20) & (m
        >> 40) & (m >> 60) & 0x000f) | (m & (m >> 12) & (m >> 24) & (m >> 36) & 0xf000) | (m & (m
        >> 21) & (m >> 42) & (m >> 63)) | (m & (m >> 19) & (m >> 38) & (m >> 57) & 0x0008) | (m
        & (m >> 13) & (m >> 26) & (m >> 39) & 0x1000) | (m & (m >> 11) & (m >> 22) & (m >> 33)
        & 0x8000)
}

/// A contained line drives the reduction to a nonzero value.
proof fn lemma_line_implies_calc(m: u64, p: u64, s: u64)
    by (bit_vector)
    requires
        is_line(p, s),
        m & line_mask(p, s) == line_mask(p, s),
    ensures
        win_calc(m) != 0,
{
}

/// A nonzero reduction exhibits one of the 76 lines.
proof fn lemma_calc_implies_line(m: u64)
    requires
        win_calc(m) != 0,
    ensures
        has_line(m),
{
    assert(win_calc(m) != 0 ==> (m & line_mask(0, 1)) == line_mask(0, 1)
|| (m & line_mask(4, 1)) == line_mask(4, 1)
|| (m & line_mask(8, 1)) == line_mask(8, 1)
|| (m & line_mask(12, 1)) == line_mask(12, 1)
|| (m & line_mask(16, 1)) == line_mask(16, 1)
|| (m & line_mask(20, 1)) == line_mask(20, 1)
|| (m & line_mask(24, 1)) == line_mask(24, 1)
|| (m & line_mask(28, 1)) == line_mask(28, 1)
|| (m & line_mask(32, 1)) == line_mask(32, 1)
|| (m & line_mask(36, 1)) == line_mask(36, 1)
|| (m & line_mask(40, 1)) == line_mask(40, 1)
|| (m & line_mask(44, 1)) == line_mask(44, 1)
|| (m & line_mask(48, 1)) == line_mask(48, 1)
|| (m & line_mask(52, 1)) == line_mask(52, 1)
|| (m & line_mask(56, 1)) == line_mask(56, 1)
|| (m & line_mask(60, 1)) == line_mask(60, 1)
|| (m & line_mask(0, 4)) == line_mask(0, 4)
|| (m & line_mask(1, 4)) == line_mask(1, 4)
|| (m & line_mask(2, 4)) == line_mask(2, 4)
|| (m & line_mask(3, 4)) == line_mask(3, 4)
|| (m & line_mask(16, 4)) == line_mask(16, 4)
|| (m & line_mask(17, 4)) == line_mask(17, 4)
|| (m & line_mask(18, 4)) == line_mask(18, 4)
|| (m & line_mask(19, 4)) == line_mask(19, 4)
|| (m & line_mask(32, 4)) == line_mask(32, 4)
|| (m & line_mask(33, 4)) == line_mask(33, 4)
|| (m & line_mask(34, 4)) == line_mask(34, 4)
|| (m & line_mask(35, 4)) == line_mask(35, 4)
|| (m & line_mask(48, 4)) == line_mask(48, 4)
|| (m & line_mask(49, 4)) == line_mask(49, 4)
|| (m & line_mask(50, 4)) == line_mask(50, 4)
|| (m & line_mask(51, 4)) == line_mask(51, 4)
|| (m & line_mask(0, 16)) == line_mask(0, 16)
|| (m & line_mask(1, 16)) == line_mask(1, 16)
|| (m & line_mask(2, 16)) == line_mask(2, 16)
|| (m & line_mask(3, 16)) == line_mask(3, 16)
|| (m & line_mask(4, 16)) == line_mask(4, 16)
|| (m & line_mask(5, 16)) == line_mask(5, 16)
|| (m & line_mask(6, 16)) == line_mask(6, 16)
|| (m & line_mask(7, 16)) == line_mask(7, 16)
|| (m & line_mask(8, 16)) == line_mask(8, 16)
|| (m & line_mask(9, 16)) == line_mask(9, 16)
|| (m & line_mask(10, 16)) == line_mask(10, 16)
|| (m & line_mask(11, 16)) == line_mask(11, 16)
|| (m & line_mask(12, 16)) == line_mask(12, 16)
|| (m & line_mask(13, 16)) == line_mask(13, 16)
|| (m & line_mask(14, 16)) == line_mask(14, 16)
|| (m & line_mask(15, 16)) == line_mask(15, 16)
|| (m & line_mask(0, 5)) == line_mask(0, 5)
|| (m & line_mask(16, 5)) == line_mask(16, 5)
|| (m & line_mask(32, 5)) == line_mask(32, 5)
|| (m & line_mask(48, 5)) == line_mask(48, 5)
|| (m & line_mask(3, 3)) == line_mask(3, 3)
|| (m & line_mask(19, 3)) == line_mask(19, 3)
|| (m & line_mask(35, 3)) == line_mask(35, 3)
|| (m & line_mask(51, 3)) == line_mask(51, 3)
|| (m & line_mask(0, 17)) == line_mask(0, 17)
|| (m & line_mask(4, 17)) == line_mask(4, 17)
|| (m & line_mask(8, 17)) == line_mask(8, 17)
|| (m & line_mask(12, 17)) == line_mask(12, 17)
|| (m & line_mask(3, 15)) == line_mask(3, 15)
|| (m & line_mask(7, 15)) == line_mask(7, 15)
|| (m & line_mask(11, 15)) == line_mask(11, 15)
|| (m & line_mask(15, 15)) == line_mask(15, 15)
|| (m & line_mask(0, 20)) == line_mask(0, 20)
|| (m & line_mask(1, 20)) == line_mask(1, 20)
|| (m & line_mask(2, 20)) == line_mask(2, 20)
|| (m & line_mask(3, 20)) == line_mask(3, 20)
|| (m & line_mask(12, 12)) == line_mask(12, 12)
|| (m & line_mask(13, 12)) == line_mask(13, 12)
|| (m & line_mask(14, 12)) == line_mask(14, 12)
|| (m & line_mask(15, 12)) == line_mask(15, 12)
|| (m & line_mask(0, 21)) == line_mask(0, 21)
|| (m & line_mask(3, 19)) == line_mask(3, 19)
|| (m & line_mask(12, 13)) == line_mask(12, 13)
|| (m & line_mask(15, 11)) == line_mask(15, 11)) by (bit_vector);
}

/// The reduction is nonzero exactly when the mask contains a winning line.
pub proof fn lemma_win_calc_iff(m: u64)
    ensures
        win_calc(m) != 0 <==> has_line(m),
{
    if win_calc(m) != 0 {
        lemma_calc_implies_line(m);
    }
    if has_line(m) {
        let (p, s) = choose|p: u64, s: u64|
            is_line(p, s) && m & #[trigger] line_mask(p, s) == line_mask(p, s);
        lemma_line_implies_calc(m, p, s);
    }
}

/// The empty mask contains no line.
pub proof fn lemma_empty_has_no_line()
    ensures
        !has_line(0),
{
    if has_line(0) {
        let (p, s) = choose|p: u64, s: u64|
            is_line(p, s) && 0u64 & #[trigger] line_mask(p, s) == line_mask(p, s);
        assert(!(is_line(p, s) && 0u64 & line_mask(p, s) == line_mask(p, s))) by (bit_vector);
    }
}

/// Whether `bit` contains all four cells of at least one winning line.
pub fn _is_win_board(bit: u64) -> (r: bool)
    ensures
        r == has_line(bit),
{
    let v = (bit & (bit >> 1) & (bit >> 2) & (bit >> 3) & 0x1111111111111111) | (bit & (bit >> 4)
        & (bit >> 8) & (bit >> 12) & 0x000f000f000f000f) | (bit & (bit >> 16) & (bit >> 32) & (bit
        >> 48) & 0x000000000000ffff) | (bit & (bit >> 5) & (bit >> 10) & (bit >> 15)
        & 0x0001000100010001) | (bit & (bit >> 3) & (bit >> 6) & (bit >> 9) & 0x0008000800080008)
        | (bit & (bit >> 17) & (bit >> 34) & (bit >> 51) & 0x1111) | (bit & (bit >> 15) & (bit
        >> 30) & (bit >> 45) & 0x8888) | (bit & (bit >> 20) & (bit >> 40) & (bit >> 60) & 0x000f)
        | (bit & (bit >> 12) & (bit >> 24) & (bit >> 36) & 0xf000) | (bit & (bit >> 21) & (bit
        >> 42) & (bit >> 63)) | (bit & (bit >> 19) & (bit >> 38) & (bit >> 57) & 0x0008) | (bit
        & (bit >> 13) & (bit >> 26) & (bit >> 39) & 0x1000) | (bit & (bit >> 11) & (bit >> 22)
        & (bit >> 33) & 0x8000);
    proof {
        assert(v == win_calc(bit));
        lemma_win_calc_iff(bit);
    }
    v > 0
}

/// The player who just moved has completed a line. The turn has already
/// flipped, so the mask tested is the one of the side _not_ to move.
pub open spec fn board_win(b: Board) -> bool {
    match b.player {
        Player::White => has_line(b.black),
        Player::Black => has_line(b.white),
    }
}

impl Board {
    /// Whether the player who just moved has won.
    pub fn is_win(&self) -> (r: bool)
        ensures
            r == board_win(*self),
    {
        match self.player {
            Player::White => _is_win_board(self.black),
            Player::Black => _is_win_board(self.white),
        }
    }
}

} // verus!
