//! Fixed-depth negamax search. The value of a position for the side to move
//! is `+1` when a win is forced within the horizon, `-1` when every move
//! loses within it, and `0` for a draw or for anything beyond the horizon.

use crate::board::{
    action_list_ok, board_next, board_wf, board_full, col_open, lemma_board_next,
    lemma_not_full_has_open, union_of, Board,
};
use crate::lines::board_win;
use vstd::prelude::*;

verus! {

/// The value, to the side to move, of dropping into open column `c`:
/// an immediate win counts `+1`, an immediate draw `0`, anything else the
/// negation of the opponent's value one ply deeper.
pub open spec fn step_value(b: Board, c: u64, d: nat) -> int
    recommends
        1 <= d,
        c < 16,
    decreases d, 0nat, 0nat,
{
    let nb = board_next(b, c);
    if board_win(nb) {
        1
    } else if board_full(nb) {
        0
    } else if d == 0 {
        0
    } else {
        -mm_value(nb, (d - 1) as nat)
    }
}

/// The best step value among the open columns below `k`; `-2` when none is
/// open.
pub open spec fn best_value_upto(b: Board, d: nat, k: nat) -> int
    recommends
        1 <= d,
        k <= 16,
    decreases d, 1nat, k,
{
    if k == 0 {
        -2
    } else {
        let prev = best_value_upto(b, d, (k - 1) as nat);
        if col_open(union_of(b), (k - 1) as u64) {
            let v = step_value(b, (k - 1) as u64, d);
            if prev < v {
                v
            } else {
                prev
            }
        } else {
            prev
        }
    }
}

/// The negamax value of the position at search depth `d`: the best step
/// value over all open columns, `0` at the horizon.
pub open spec fn mm_value(b: Board, d: nat) -> int
    decreases d, 2nat, 0nat,
{
    if d == 0 {
        0
    } else {
        best_value_upto(b, d, 16)
    }
}

/// Dropping into `c` ends the game at once, by a win or by filling the cube.
pub open spec fn imm_terminal(b: Board, c: u64) -> bool {
    board_win(board_next(b, c)) || board_full(board_next(b, c))
}

/// When a move fills the cube, its column was the only open one.
pub proof fn lemma_full_move_unique(b: Board, c: u64)
    requires
        board_wf(b),
        c < 16,
        col_open(union_of(b), c),
        board_full(board_next(b, c)),
    ensures
        forall|e: u64| e < 16 && e != c ==> !col_open(union_of(b), e),
{
    let u = union_of(b);
    lemma_board_next(b, c);
    crate::board::lemma_move_mask(u, c);
    let m = crate::board::move_mask(u, c);
    assert forall|e: u64| e < 16 && e != c implies !col_open(u, e) by {
        assert((u | m == 0xffffffffffffffffu64 && m & u == 0 && (m == 1u64 << c || m == 1u64 << ((c
            + 16) as u64) || m == 1u64 << ((c + 32) as u64) || m == 1u64 << ((c + 48) as u64)) && e
            < 16 && c < 16 && e != c) ==> (u >> ((48 + e) as u64)) & 1 == 1) by (bit_vector);
        if (u >> c) & 1 == 0 {
            assert(m == 1u64 << c);
        } else if (u >> ((c + 16) as u64)) & 1 == 0 {
            assert(m == 1u64 << ((c + 16) as u64));
        } else if (u >> ((c + 32) as u64)) & 1 == 0 {
            assert(m == 1u64 << ((c + 32) as u64));
        } else {
            assert(m == 1u64 << ((c + 48) as u64));
        }
    }
}

/// Step values stay within `[-1, 1]`, and the search value within `[-2, 1]`.
pub proof fn lemma_step_bounds(b: Board, c: u64, d: nat)
    requires
        board_wf(b),
        c < 16,
        col_open(union_of(b), c),
        1 <= d,
    ensures
        -1 <= step_value(b, c, d) <= 1,
    decreases d, 0nat, 0nat,
{
    let nb = board_next(b, c);
    lemma_board_next(b, c);
    if !board_win(nb) && !board_full(nb) && d > 1 {
        lemma_mm_bounds(nb, (d - 1) as nat);
    }
}

proof fn lemma_best_bounds(b: Board, d: nat, k: nat)
    requires
        board_wf(b),
        1 <= d,
        k <= 16,
    ensures
        -2 <= best_value_upto(b, d, k) <= 1,
        (exists|c: u64| c < k && #[trigger] col_open(union_of(b), c)) ==> best_value_upto(b, d, k)
            >= -1,
    decreases d, 1nat, k,
{
    if k > 0 {
        lemma_best_bounds(b, d, (k - 1) as nat);
        if col_open(union_of(b), (k - 1) as u64) {
            lemma_step_bounds(b, (k - 1) as u64, d);
        }
    }
}

/// The search value lies in `[-2, 1]`; on a board that is not full it lies
/// in `[-1, 1]`.
pub proof fn lemma_mm_bounds(b: Board, d: nat)
    requires
        board_wf(b),
    ensures
        -2 <= mm_value(b, d) <= 1,
        !board_full(b) ==> -1 <= mm_value(b, d),
    decreases d, 2nat, 0nat,
{
    if d > 0 {
        lemma_best_bounds(b, d, 16);
        if !board_full(b) {
            lemma_not_full_has_open(b);
        }
    }
}

/// The best-so-far value does not change over a run of closed columns.
pub proof fn lemma_best_gap(b: Board, d: nat, lo: nat, hi: nat)
    requires
        1 <= d,
        lo <= hi <= 16,
        forall|c: u64| lo <= c < hi ==> !#[trigger] col_open(union_of(b), c),
    ensures
        best_value_upto(b, d, hi) == best_value_upto(b, d, lo),
    decreases hi - lo,
{
    if hi > lo {
        lemma_best_gap(b, d, lo, (hi - 1) as nat);
        assert(!col_open(union_of(b), (hi - 1) as u64));
    }
}

/// The best-so-far value dominates the step value of every open column
/// already scanned.
pub proof fn lemma_best_ge(b: Board, d: nat, k: nat, c: u64)
    requires
        1 <= d,
        c < k,
        k <= 16,
        col_open(union_of(b), c),
    ensures
        best_value_upto(b, d, k) >= step_value(b, c, d),
    decreases k,
{
    if c + 1 < k {
        lemma_best_ge(b, d, (k - 1) as nat, c);
    }
}

/// The best-so-far value is reached by some step: it cannot exceed a bound
/// on them.
pub proof fn lemma_best_le(b: Board, d: nat, k: nat, v: int)
    requires
        1 <= d,
        k <= 16,
        -2 <= v,
        forall|c: u64| c < k && #[trigger] col_open(union_of(b), c) ==> step_value(b, c, d) <= v,
    ensures
        best_value_upto(b, d, k) <= v,
    decreases k,
{
    if k > 0 {
        lemma_best_le(b, d, (k - 1) as nat, v);
    }
}

/// Between one listed action and the next, every column is closed.
proof fn lemma_gap_closed(b: Board, acts: Seq<u8>, i: int, bound: u64)
    requires
        action_list_ok(b, acts),
        0 <= i < acts.len(),
        i == 0 ==> bound == 0,
        i > 0 ==> bound == acts[i - 1] + 1,
    ensures
        forall|c: u64| bound <= c < acts[i] ==> !#[trigger] col_open(union_of(b), c),
{
    assert forall|c: u64| bound <= c < acts[i] implies !col_open(union_of(b), c) by {
        if col_open(union_of(b), c) {
            assert(acts.contains(c as u8));
            let k = choose|k: int| 0 <= k < acts.len() && acts[k] == c as u8;
            if k < i {
                assert(acts[k] <= acts[i - 1]);
            } else {
                assert(acts[i] <= acts[k]);
            }
        }
    }
}

/// Beyond the last listed action, every column is closed.
proof fn lemma_tail_closed(b: Board, acts: Seq<u8>, bound: u64)
    requires
        action_list_ok(b, acts),
        acts.len() == 0 ==> bound == 0,
        acts.len() > 0 ==> bound == acts[acts.len() - 1] + 1,
    ensures
        forall|c: u64| bound <= c < 16 ==> !#[trigger] col_open(union_of(b), c),
{
    assert forall|c: u64| bound <= c < 16 implies !col_open(union_of(b), c) by {
        if col_open(union_of(b), c) {
            assert(acts.contains(c as u8));
            let k = choose|k: int| 0 <= k < acts.len() && acts[k] == c as u8;
            assert(acts[k] <= acts[acts.len() - 1]);
        }
    }
}

impl Board {
    /// The negamax value of this position at the given depth, computed by
    /// scanning the open columns with win/draw short-circuiting.
    pub fn _minimax_action(&self, depth: u8) -> (r: i8)
        requires
            board_wf(*self),
        ensures
            r as int == mm_value(*self, depth as nat),
        decreases depth,
    {
        if depth == 0 {
            return 0;
        }
        let ghost d = depth as nat;
        let mut max_val: i8 = -2;
        let actions = self.valid_actions();
        let ghost mut bound: u64 = 0;
        let mut i: usize = 0;
        while i < actions.len()
            invariant
                board_wf(*self),
                1 <= depth,
                d == depth as nat,
                i <= actions.len(),
                action_list_ok(*self, actions@),
                bound <= 16,
                i == 0 ==> bound == 0,
                i > 0 ==> bound == actions@[i - 1] + 1,
                max_val as int == best_value_upto(*self, d, bound as nat),
                -2 <= max_val <= 1,
            decreases actions.len() - i,
        {
            let a = actions[i];
            proof {
                lemma_gap_closed(*self, actions@, i as int, bound);
                lemma_best_gap(*self, d, bound as nat, a as nat);
            }
            let nb = self.next(a);
            proof {
                lemma_board_next(*self, a as u64);
            }
            if nb.is_win() {
                proof {
                    assert(step_value(*self, a as u64, d) == 1);
                    lemma_best_ge(*self, d, 16, a as u64);
                    lemma_best_bounds(*self, d, 16);
                }
                return 1;
            } else if nb.is_draw() {
                proof {
                    lemma_full_move_unique(*self, a as u64);
                    lemma_best_gap(*self, d, 0, a as nat);
                    lemma_best_gap(*self, d, (a + 1) as nat, 16);
                    assert(step_value(*self, a as u64, d) == 0);
                    assert(best_value_upto(*self, d, (a + 1) as nat) == 0);
                }
                return 0;
            }
            let sub = nb._minimax_action(depth - 1);
            proof {
                lemma_mm_bounds(nb, (depth - 1) as nat);
            }
            let val = -sub;
            proof {
                assert(step_value(*self, a as u64, d) == val as int);
            }
            if max_val < val {
                max_val = val;
            }
            proof {
                assert(best_value_upto(*self, d, (a + 1) as nat) == max_val as int);
                bound = (a + 1) as u64;
            }
            i = i + 1;
        }
        proof {
            if actions.len() == 0 {
                lemma_tail_closed(*self, actions@, 0);
                lemma_best_gap(*self, d, 0, 16);
            } else {
                lemma_tail_closed(*self, actions@, bound);
                lemma_best_gap(*self, d, bound as nat, 16);
            }
        }
        max_val
    }

    /// Choose a column for the side to move by a depth-bounded negamax
    /// search. At depth 1 the scan returns the first immediately terminal
    /// column if there is one and otherwise a uniformly random open column;
    /// at greater depths it returns a uniformly random column among those
    /// with the best step value.
    pub fn minimax_action(&self, depth: u8) -> (r: u8)
        requires
            board_wf(*self),
            !board_full(*self),
            1 <= depth,
        ensures
            r < 16,
            col_open(union_of(*self), r as u64),
            step_value(*self, r as u64, depth as nat) == mm_value(*self, depth as nat),
            depth == 1 ==> forall|c: u64|
                c < r ==> !(col_open(union_of(*self), c) && #[trigger] imm_terminal(*self, c)),
            depth == 1 && (exists|c: u64|
                c < 16 && col_open(union_of(*self), c) && #[trigger] imm_terminal(*self, c))
                ==> imm_terminal(*self, r as u64),
    {
        let ghost d = depth as nat;
        proof {
            lemma_not_full_has_open(*self);
        }
        let actions = self.valid_actions();
        proof {
            let c0 = choose|c: u64| c < 16 && #[trigger] col_open(union_of(*self), c);
            assert(actions@.contains(c0 as u8));
        }
        if depth == 1 {
            let ghost mut bound: u64 = 0;
            let mut i: usize = 0;
            while i < actions.len()
                invariant
                    board_wf(*self),
                    depth == 1,
                    d == 1,
                    !board_full(*self),
                    i <= actions.len(),
                    actions.len() > 0,
                    action_list_ok(*self, actions@),
                    bound <= 16,
                    i == 0 ==> bound == 0,
                    i > 0 ==> bound == actions@[i - 1] + 1,
                    forall|c: u64|
                        c < bound ==> !(col_open(union_of(*self), c) && #[trigger] imm_terminal(
                            *self,
                            c,
                        )),
                decreases actions.len() - i,
            {
                let a = actions[i];
                proof {
                    lemma_gap_closed(*self, actions@, i as int, bound);
                }
                let nb = self.next(a);
                proof {
                    lemma_board_next(*self, a as u64);
                }
                if nb.is_win() {
                    proof {
                        assert(step_value(*self, a as u64, d) == 1);
                        lemma_best_ge(*self, d, 16, a as u64);
                        lemma_best_bounds(*self, d, 16);
                    }
                    return a;
                } else if nb.is_draw() {
                    proof {
                        lemma_full_move_unique(*self, a as u64);
                        lemma_best_gap(*self, d, 0, a as nat);
                        lemma_best_gap(*self, d, (a + 1) as nat, 16);
                        assert(step_value(*self, a as u64, d) == 0);
                        assert(best_value_upto(*self, d, (a + 1) as nat) == 0);
                    }
                    return a;
                }
                proof {
                    assert(!imm_terminal(*self, a as u64));
                    bound = (a + 1) as u64;
                }
                i = i + 1;
            }
            proof {
                lemma_tail_closed(*self, actions@, bound);
            }
            let r = actions[crate::rng::random_below(actions.len())];
            proof {
                assert forall|c: u64| c < 16 && col_open(union_of(*self), c) implies step_value(
                    *self,
                    c,
                    d,
                ) == 0 by {
                    assert(!imm_terminal(*self, c));
                    lemma_board_next(*self, c);
                }
                lemma_best_le(*self, d, 16, 0);
                let c0 = choose|c: u64| c < 16 && #[trigger] col_open(union_of(*self), c);
                lemma_best_ge(*self, d, 16, c0);
            }
            r
        } else {
            let mut best_actions = Vec::<u8>::new();
            let mut max_val: i8 = -2;
            let ghost mut bound: u64 = 0;
            let mut i: usize = 0;
            while i < actions.len()
                invariant
                    board_wf(*self),
                    2 <= depth,
                    d == depth as nat,
                    !board_full(*self),
                    i <= actions.len(),
                    actions.len() > 0,
                    action_list_ok(*self, actions@),
                    bound <= 16,
                    i == 0 ==> bound == 0,
                    i > 0 ==> bound == actions@[i - 1] + 1,
                    max_val as int == best_value_upto(*self, d, bound as nat),
                    -2 <= max_val <= 1,
                    max_val > -2 ==> best_actions@.len() > 0,
                    forall|k: int|
                        0 <= k < best_actions@.len() ==> best_actions@[k] < 16 && col_open(
                            union_of(*self),
                            #[trigger] best_actions@[k] as u64,
                        ) && step_value(*self, best_actions@[k] as u64, d) == max_val as int,
                decreases actions.len() - i,
            {
                let a = actions[i];
                proof {
                    lemma_gap_closed(*self, actions@, i as int, bound);
                    lemma_best_gap(*self, d, bound as nat, a as nat);
                }
                let nb = self.next(a);
                proof {
                    lemma_board_next(*self, a as u64);
                }
                if nb.is_win() {
                    proof {
                        assert(step_value(*self, a as u64, d) == 1);
                        lemma_best_ge(*self, d, 16, a as u64);
                        lemma_best_bounds(*self, d, 16);
                    }
                    return a;
                } else if nb.is_draw() {
                    proof {
                        lemma_full_move_unique(*self, a as u64);
                        lemma_best_gap(*self, d, 0, a as nat);
                        lemma_best_gap(*self, d, (a + 1) as nat, 16);
                        assert(step_value(*self, a as u64, d) == 0);
                        assert(best_value_upto(*self, d, (a + 1) as nat) == 0);
                    }
                    return a;
                }
                let sub = nb._minimax_action(depth - 1);
                proof {
                    lemma_mm_bounds(nb, (depth - 1) as nat);
                }
                let val = -sub;
                proof {
                    assert(step_value(*self, a as u64, d) == val as int);
                }
                if val == 1 {
                    proof {
                        lemma_best_ge(*self, d, 16, a as u64);
                        lemma_best_bounds(*self, d, 16);
                    }
                    return a;
                }
                if max_val < val {
                    max_val = val;
                    best_actions = Vec::new();
                    best_actions.push(a);
                } else if max_val == val {
                    best_actions.push(a);
                }
                proof {
                    assert(best_value_upto(*self, d, (a + 1) as nat) == max_val as int);
                    bound = (a + 1) as u64;
                }
                i = i + 1;
            }
            proof {
                lemma_tail_closed(*self, actions@, bound);
                lemma_best_gap(*self, d, bound as nat, 16);
                lemma_mm_bounds(*self, d);
            }
            best_actions[crate::rng::random_below(best_actions.len())]
        }
    }
}

} // verus!
