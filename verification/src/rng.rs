//! The source of randomness for tie-breaking and rollouts, and the
//! uniformly random move policy built on it.

use crate::board::{board_full, board_wf, col_open, lemma_not_full_has_open, union_of, Board};
use vstd::prelude::*;

verus! {

/// Relies on rand::random: a machine word drawn from the thread-local
/// generator. Nothing is promised of the value.
#[verifier::external_body]
fn random_word() -> usize {
    rand::random::<usize>()
}

/// A random index below `len`, by reducing a random word.
pub(crate) fn random_below(len: usize) -> (r: usize)
    requires
        len > 0,
    ensures
        r < len,
{
    random_word() % len
}

/// A uniformly random open column of a board that is not full.
pub fn get_random(board: &Board) -> (r: u8)
    requires
        board_wf(*board),
        !board_full(*board),
    ensures
        r < 16,
        col_open(union_of(*board), r as u64),
{
    let actions = board.valid_actions();
    proof {
        lemma_not_full_has_open(*board);
        let c0 = choose|c: u64| c < 16 && #[trigger] col_open(union_of(*board), c);
        assert(actions@.contains(c0 as u8));
    }
    actions[random_below(actions.len())]
}

} // verus!
