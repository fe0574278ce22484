//! The bitboard model: two 64-bit occupancy masks, one per player.
//!
//! Cell index `i = layer*16 + row*4 + col`: `layer` is the stack height from
//! the bottom, `(row, col)` addresses one of the 16 drop columns. A drop
//! column is identified by `row*4 + col` in `[0, 16)`; bits 48..64 are the
//! topmost layer.

use crate::count::{lemma_pcount_set_bit, lemma_pcount_zero, pcount};
use vstd::prelude::*;

verus! {

/// The side to move. Black moves first.
#[derive(PartialEq, Eq, Structural, Hash, Clone, Copy, Debug)]
pub enum Player {
    Black,
    White,
}

impl Player {
    /// The other side.
    pub fn next(&self) -> (r: Self)
        ensures
            r == (match self {
                Player::Black => Player::White,
                Player::White => Player::Black,
            }),
    {
        match self {
            Player::Black => Player::White,
            Player::White => Player::Black,
        }
    }

    /// The side encoded by the parity of a 64-bit word: even is Black.
    pub fn from_u64(board: u64) -> (r: Self)
        ensures
            r == (if board % 2 == 0 {
                Player::Black
            } else {
                Player::White
            }),
    {
        if board % 2 == 0 {
            Player::Black
        } else {
            Player::White
        }
    }
}

/// The board state: one occupancy mask per player, and the side to move.
#[derive(PartialEq, Eq, Hash, Clone, Copy)]
pub struct Board {
    pub black: u64,
    pub white: u64,
    pub player: Player,
}

/// The cells occupied by either player.
pub open spec fn union_of(b: Board) -> u64 {
    b.black | b.white
}

/// Gravity: a cell is occupied only if the cell below it in the same drop
/// column is occupied. Expressed by shifting the union down one layer.
pub open spec fn stacked(u: u64) -> bool {
    (u >> 16) & !u == 0
}

/// A well-formed board: no cell owned by both players, and no floating piece.
pub open spec fn board_wf(b: Board) -> bool {
    &&& b.black & b.white == 0
    &&& stacked(union_of(b))
}

/// Drop column `c` is open: the bit of its topmost layer is unset.
pub open spec fn col_open(u: u64, c: u64) -> bool
    recommends
        c < 16,
{
    (u >> ((48 + c) as u64)) & 1 == 0
}

/// The number of occupied cells.
pub open spec fn piece_count(b: Board) -> nat {
    pcount(union_of(b), 64)
}

/// The single-bit mask of the lowest unoccupied cell of drop column `c`,
/// computed by the branch-free formula the move application uses; zero when
/// the column is full.
pub open spec fn move_mask(u: u64, c: u64) -> u64
    recommends
        c < 16,
{
    (0x0001000100010001u64 << c) & ((!u << 16) ^ !u)
}

/// The board after the side to move drops into column `c`.
pub open spec fn board_next(b: Board, c: u64) -> Board
    recommends
        c < 16,
{
    let bit = move_mask(union_of(b), c);
    match b.player {
        Player::Black => Board { black: b.black | bit, white: b.white, player: Player::White },
        Player::White => Board { black: b.black, white: b.white | bit, player: Player::Black },
    }
}

/// Every cell of the cube is occupied.
pub open spec fn board_full(b: Board) -> bool {
    union_of(b) == 0xffffffffffffffffu64
}

/// On an open, well-stacked column the move formula yields exactly the bit
/// of the lowest free layer, it is fresh, and stacking is preserved.
pub proof fn lemma_move_mask(u: u64, c: u64)
    by (bit_vector)
    requires
        c < 16,
        stacked(u),
        col_open(u, c),
    ensures
        move_mask(u, c) != 0,
        move_mask(u, c) & u == 0,
        move_mask(u, c) & ((move_mask(u, c) - 1) as u64) == 0,
        stacked(u | move_mask(u, c)),
        (u >> c) & 1 == 0 ==> move_mask(u, c) == 1u64 << c,
        (u >> c) & 1 != 0 && (u >> ((c + 16) as u64)) & 1 == 0 ==> move_mask(u, c) == 1u64 << (
        (c + 16) as u64),
        (u >> ((c + 16) as u64)) & 1 != 0 && (u >> ((c + 32) as u64)) & 1 == 0 ==> move_mask(u, c)
            == 1u64 << ((c + 32) as u64),
        (u >> ((c + 32) as u64)) & 1 != 0 ==> move_mask(u, c) == 1u64 << ((c + 48) as u64),
{
}

/// Bitwise facts the move application leans on: rearranging unions,
/// preserving disjointness, reading a single bit, and narrowing a shift.
proof fn lemma_bit_basics()
    by (bit_vector)
    ensures
        forall|a: u64, w: u64, m: u64| #[trigger] ((a | m) | w) == (a | w) | m,
        forall|a: u64, w: u64, m: u64| #[trigger] (a | (w | m)) == (a | w) | m,
        forall|a: u64, w: u64, m: u64|
            a & w == 0 && m & (a | w) == 0 ==> #[trigger] ((a | m) & w) == 0,
        forall|a: u64, w: u64, m: u64|
            a & w == 0 && m & (a | w) == 0 ==> #[trigger] (a & (w | m)) == 0,
        forall|u: u64, j: u64| j < 64 ==> (((1u64 << j) & u == 0) <==> #[trigger] ((u >> j) & 1)
            == 0),
        forall|u: u64, i: u64|
            i < 16 ==> #[trigger] (((u >> 48) >> i) & 1) == (u >> ((48 + i) as u64)) & 1,
        stacked(0),
        0u64 | 0u64 == 0u64,
        0u64 & 0u64 == 0u64,
{
}

/// The move bit of an open column is a power of two: some single cell.
pub proof fn lemma_move_mask_single_bit(u: u64, c: u64)
    requires
        c < 16,
        stacked(u),
        col_open(u, c),
    ensures
        exists|j: u64| j < 64 && move_mask(u, c) == #[trigger] (1u64 << j),
{
    lemma_move_mask(u, c);
    if (u >> c) & 1 == 0 {
        assert(move_mask(u, c) == 1u64 << c);
    } else if (u >> ((c + 16) as u64)) & 1 == 0 {
        assert(move_mask(u, c) == 1u64 << ((c + 16) as u64));
    } else if (u >> ((c + 32) as u64)) & 1 == 0 {
        assert(move_mask(u, c) == 1u64 << ((c + 32) as u64));
    } else {
        assert(move_mask(u, c) == 1u64 << ((c + 48) as u64));
    }
}

/// A move on a well-formed board keeps it well-formed and occupies exactly
/// one new cell.
pub proof fn lemma_board_next(b: Board, c: u64)
    requires
        c < 16,
        col_open(union_of(b), c),
        board_wf(b),
    ensures
        board_wf(board_next(b, c)),
        union_of(board_next(b, c)) == union_of(b) | move_mask(union_of(b), c),
        piece_count(board_next(b, c)) == piece_count(b) + 1,
{
    let u = union_of(b);
    let m = move_mask(u, c);
    lemma_bit_basics();
    lemma_move_mask(u, c);
    lemma_move_mask_single_bit(u, c);
    assert(exists|j: u64| j < 64 && m == #[trigger] (1u64 << j));
    let j = choose|j: u64| j < 64 && m == #[trigger] (1u64 << j);
    assert((u >> j) & 1 == 0);
    lemma_pcount_set_bit(u, j);
    let r = board_next(b, c);
    match b.player {
        Player::Black => {
            assert(r.black == b.black | m && r.white == b.white);
            assert(union_of(r) == u | m);
        },
        Player::White => {
            assert(r.black == b.black && r.white == b.white | m);
            assert(union_of(r) == u | m);
        },
    }
}

impl Board {
    /// The empty board, Black to move.
    pub fn new() -> (r: Self)
        ensures
            r.black == 0 && r.white == 0 && r.player == Player::Black,
            board_wf(r),
            piece_count(r) == 0,
    {
        proof {
            lemma_bit_basics();
            lemma_pcount_zero(64);
        }
        Board { black: 0, white: 0, player: Player::Black }
    }

    /// Drop a piece for the side to move into column `action_id`, which the
    /// caller must have checked to be open, and flip the turn.
    pub fn next(&self, action_id: u8) -> (r: Self)
        requires
            action_id < 16,
            col_open(union_of(*self), action_id as u64),
        ensures
            r == board_next(*self, action_id as u64),
            board_wf(*self) ==> board_wf(r) && piece_count(r) == piece_count(*self) + 1,
    {
        proof {
            if board_wf(*self) {
                lemma_board_next(*self, action_id as u64);
            }
        }
        let board = self.black | self.white;
        let action_bitboard: u64 = (0x0001000100010001u64 << action_id) & ((!board << 16) ^ (
        !board));
        match self.player {
            Player::Black => Board {
                black: self.black | action_bitboard,
                white: self.white,
                player: self.player.next(),
            },
            Player::White => Board {
                black: self.black,
                white: self.white | action_bitboard,
                player: self.player.next(),
            },
        }
    }

    /// Every cell is occupied; no move is possible and nobody has won.
    pub fn is_draw(&self) -> (r: bool)
        ensures
            r == board_full(*self),
    {
        (self.black | self.white) == 0xffffffffffffffff
    }

    /// An exact copy of the board. The side to move is determined by the
    /// parity of the pieces placed, so a copy must carry it unchanged: masks
    /// and turn never drift apart.
    pub fn clone(&self) -> (r: Self)
        ensures
            r == *self,
    {
        Board { black: self.black, white: self.white, player: self.player }
    }

    /// The topmost layer of the occupancy union: bit `c` set means drop
    /// column `c` is full.
    pub fn action_mask(&self) -> (r: u64)
        ensures
            r == union_of(*self) >> 48,
    {
        let board = self.black | self.white;
        board >> 48
    }

    /// The open drop columns, in ascending order: exactly those whose
    /// topmost-layer bit is unset.
    pub fn valid_actions(&self) -> (r: Vec<u8>)
        ensures
            forall|i: int|
                0 <= i < r@.len() ==> r@[i] < 16 && col_open(union_of(*self), r@[i] as u64),
            forall|c: u8| c < 16 && col_open(union_of(*self), c as u64) ==> r@.contains(c),
            forall|i: int, k: int| 0 <= i < k < r@.len() ==> r@[i] < r@[k],
    {
        proof {
            lemma_bit_basics();
        }
        let mut actions = Vec::<u8>::new();
        let board = (self.black | self.white) >> 48;
        for i in 0..16u8
            invariant
                forall|k: int|
                    0 <= k < actions@.len() ==> actions@[k] < i && col_open(
                        union_of(*self),
                        actions@[k] as u64,
                    ),
                forall|c: u8| c < i && col_open(union_of(*self), c as u64) ==> actions@.contains(c),
                forall|k: int, m: int| 0 <= k < m < actions@.len() ==> actions@[k] < actions@[m],
                board == union_of(*self) >> 48,
        {
            let ghost prev = actions@;
            if (board >> i) & 1 == 0 {
                proof {
                    lemma_bit_basics();
                }
                actions.push(i);
                proof {
                    assert(actions@[actions@.len() - 1] == i);
                    assert forall|c: u8|
                        c < i + 1 && col_open(union_of(*self), c as u64) implies actions@.contains(
                        c,
                    ) by {
                        if c < i {
                            assert(prev.contains(c));
                            let k = choose|k: int| 0 <= k < prev.len() && prev[k] == c;
                            assert(0 <= k < prev.len() && prev[k] == c);
                            assert(actions@[k] == c);
                        } else {
                            assert(actions@[actions@.len() - 1] == c);
                        }
                    }
                }
            } else {
                proof {
                    lemma_bit_basics();
                }
            }
        }
        actions
    }

    /// Whether Black is the side to move.
    pub fn is_black(&self) -> (r: bool)
        ensures
            r == (self.player is Black),
    {
        match self.player {
            Player::Black => true,
            Player::White => false,
        }
    }
}

/// A board that is not full has an open column.
pub proof fn lemma_not_full_has_open(b: Board)
    requires
        board_wf(b),
        !board_full(b),
    ensures
        exists|c: u64| c < 16 && #[trigger] col_open(union_of(b), c),
{
    let u = union_of(b);
    assert(((u >> 16) & !u == 0 && u != 0xffffffffffffffffu64) ==> ((u >> 48u64) & 1 == 0 || (u
        >> 49u64) & 1 == 0 || (u >> 50u64) & 1 == 0 || (u >> 51u64) & 1 == 0 || (u >> 52u64) & 1
        == 0 || (u >> 53u64) & 1 == 0 || (u >> 54u64) & 1 == 0 || (u >> 55u64) & 1 == 0 || (u
        >> 56u64) & 1 == 0 || (u >> 57u64) & 1 == 0 || (u >> 58u64) & 1 == 0 || (u >> 59u64) & 1
        == 0 || (u >> 60u64) & 1 == 0 || (u >> 61u64) & 1 == 0 || (u >> 62u64) & 1 == 0 || (u
        >> 63u64) & 1 == 0)) by (bit_vector);
    assert(col_open(u, 0) || col_open(u, 1) || col_open(u, 2) || col_open(u, 3) || col_open(u, 4)
        || col_open(u, 5) || col_open(u, 6) || col_open(u, 7) || col_open(u, 8) || col_open(u, 9)
        || col_open(u, 10) || col_open(u, 11) || col_open(u, 12) || col_open(u, 13) || col_open(
        u,
        14,
    ) || col_open(u, 15));
}

/// Ascending, open-and-complete, sorted: the shape `valid_actions` gives its
/// result.
pub open spec fn action_list_ok(b: Board, acts: Seq<u8>) -> bool {
    &&& forall|k: int| 0 <= k < acts.len() ==> acts[k] < 16 && col_open(union_of(b), acts[k] as u64)
    &&& forall|c: u8| c < 16 && col_open(union_of(b), c as u64) ==> acts.contains(c)
    &&& forall|k: int, m: int| 0 <= k < m < acts.len() ==> acts[k] < acts[m]
}

/// Every column that the action list offers can be applied: it is open, the
/// move meets the application's contract, and it occupies exactly one new
/// cell of a well-formed board.
pub proof fn lemma_valid_action_applies(b: Board, acts: Seq<u8>, i: int)
    requires
        board_wf(b),
        action_list_ok(b, acts),
        0 <= i < acts.len(),
    ensures
        acts[i] < 16,
        col_open(union_of(b), acts[i] as u64),
        board_wf(board_next(b, acts[i] as u64)),
        piece_count(board_next(b, acts[i] as u64)) == piece_count(b) + 1,
{
    lemma_board_next(b, acts[i] as u64);
}

/// A well-formed board with all 64 cells occupied is full, hence a draw.
pub proof fn lemma_filled_is_draw(b: Board)
    requires
        piece_count(b) == 64,
    ensures
        board_full(b),
{
    crate::count::lemma_pcount_max(union_of(b));
}

} // verus!
