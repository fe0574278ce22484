//! The decision policies behind one interface, and the self-play loop.
//! Scores are kept in half-point units: a win is worth 2, a draw 1 to each
//! side, so the two scores of one game always sum to 2.

use crate::board::{
    board_full, board_wf, col_open, lemma_board_next, piece_count, union_of, Board,
};
use crate::count::lemma_pcount_le;
use crate::lines::{board_win, lemma_empty_has_no_line};
use crate::mcts::mcts_action;
use crate::rng::get_random;
use vstd::prelude::*;
use vstd::string::StringExecFns;

verus! {

/// A move-selection policy with its parameters. `Human` defers to an
/// outside input channel and is handled by the surrounding program, never
/// by the engine itself.
pub enum Agent {
    Human,
    Random,
    Minimax(u8),
    Mcts(usize, usize),
}

/// The engine can decide for this agent: not the human, a positive minimax
/// depth, and a simulation count the search accepts.
pub open spec fn agent_ok(a: Agent) -> bool {
    match a {
        Agent::Human => false,
        Agent::Random => true,
        Agent::Minimax(d) => 1 <= d,
        Agent::Mcts(_ex, se) => se <= 0xffff_ffff,
    }
}

/// The decimal digit characters of `n`, most significant first.
pub open spec fn dec_seq(n: nat) -> Seq<char>
    decreases n,
{
    if n < 10 {
        seq![digit_char(n)]
    } else {
        dec_seq(n / 10).push(digit_char(n % 10))
    }
}

/// The character of one decimal digit.
pub open spec fn digit_char(d: nat) -> char {
    if d == 0 {
        '0'
    } else if d == 1 {
        '1'
    } else if d == 2 {
        '2'
    } else if d == 3 {
        '3'
    } else if d == 4 {
        '4'
    } else if d == 5 {
        '5'
    } else if d == 6 {
        '6'
    } else if d == 7 {
        '7'
    } else if d == 8 {
        '8'
    } else {
        '9'
    }
}

/// Append the decimal digits of `v` to a string.
pub(crate) fn push_decimal(s: &mut String, v: u64)
    ensures
        final(s)@ == old(s)@ + dec_seq(v as nat),
    decreases v,
{
    let ghost mid = s@;
    if v >= 10 {
        push_decimal(s, v / 10);
        proof {
            assert(s@ == mid + dec_seq((v / 10) as nat));
        }
    }
    let d = v % 10;
    let ghost pre = s@;
    if d == 0 {
        s.append("0");
        proof {
            reveal_strlit("0");
        }
    } else if d == 1 {
        s.append("1");
        proof {
            reveal_strlit("1");
        }
    } else if d == 2 {
        s.append("2");
        proof {
            reveal_strlit("2");
        }
    } else if d == 3 {
        s.append("3");
        proof {
            reveal_strlit("3");
        }
    } else if d == 4 {
        s.append("4");
        proof {
            reveal_strlit("4");
        }
    } else if d == 5 {
        s.append("5");
        proof {
            reveal_strlit("5");
        }
    } else if d == 6 {
        s.append("6");
        proof {
            reveal_strlit("6");
        }
    } else if d == 7 {
        s.append("7");
        proof {
            reveal_strlit("7");
        }
    } else if d == 8 {
        s.append("8");
        proof {
            reveal_strlit("8");
        }
    } else {
        s.append("9");
        proof {
            reveal_strlit("9");
        }
    }
    proof {
        assert(s@ =~= pre.push(digit_char(d as nat)));
        assert(s@ =~= mid + dec_seq(v as nat));
    }
}

/// The display name of an agent.
pub open spec fn name_spec(a: Agent) -> Seq<char> {
    match a {
        Agent::Human => "Human"@,
        Agent::Random => "Random"@,
        Agent::Minimax(d) => "Minimax:"@ + dec_seq(d as nat),
        Agent::Mcts(ex, se) => "Mcts:"@ + dec_seq(se as nat) + "/"@ + dec_seq(ex as nat),
    }
}

impl Agent {
    /// The column this agent plays on the given non-terminal board. The
    /// human agent is excluded here: its input arrives from outside the
    /// engine.
    pub fn get_action(&self, board: &Board) -> (r: u8)
        requires
            agent_ok(*self),
            board_wf(*board),
            !board_win(*board),
            !board_full(*board),
        ensures
            r < 16,
            col_open(union_of(*board), r as u64),
    {
        match self {
            Agent::Human => {
                proof {
                    assert(false);
                }
                0
            },
            Agent::Minimax(depth) => board.minimax_action(*depth),
            Agent::Mcts(expand_n, search_n) => mcts_action(board, *search_n, *expand_n),
            Agent::Random => get_random(board),
        }
    }

    /// A readable name: the policy and its parameters.
    pub fn name(&self) -> (r: String)
        ensures
            r@ == name_spec(*self),
    {
        match self {
            Agent::Human => String::from_str("Human"),
            Agent::Random => String::from_str("Random"),
            Agent::Minimax(depth) => {
                let mut s = String::from_str("Minimax:");
                push_decimal(&mut s, *depth as u64);
                s
            },
            Agent::Mcts(ex, se) => {
                let mut s = String::from_str("Mcts:");
                push_decimal(&mut s, *se as u64);
                s.append("/");
                push_decimal(&mut s, *ex as u64);
                proof {
                    assert(s@ =~= name_spec(*self));
                }
                s
            },
        }
    }
}

/// Play one game, `a1` as Black against `a2` as White, until a win or a
/// draw. The two half-point scores always account for exactly one game:
/// 2 and 0 for a win, 1 and 1 for a draw.
pub fn play(a1: &Agent, a2: &Agent) -> (r: (u32, u32))
    requires
        agent_ok(*a1),
        agent_ok(*a2),
    ensures
        r.0 + r.1 == 2,
{
    let mut b = Board::new();
    proof {
        lemma_empty_has_no_line();
        assert(0u64 | 0u64 == 0u64) by (bit_vector);
    }
    loop
        invariant
            board_wf(b),
            !board_win(b),
            !board_full(b),
            agent_ok(*a1),
            agent_ok(*a2),
        decreases 64 - piece_count(b),
    {
        if b.is_black() {
            let action = a1.get_action(&b);
            proof {
                lemma_board_next(b, action as u64);
                lemma_pcount_le(union_of(crate::board::board_next(b, action as u64)), 64);
            }
            b = b.next(action);
            if b.is_win() {
                return (2, 0);
            } else if b.is_draw() {
                return (1, 1);
            }
        } else {
            let action = a2.get_action(&b);
            proof {
                lemma_board_next(b, action as u64);
                lemma_pcount_le(union_of(crate::board::board_next(b, action as u64)), 64);
            }
            b = b.next(action);
            if b.is_win() {
                return (0, 2);
            } else if b.is_draw() {
                return (1, 1);
            }
        }
    }
}

/// Play `n` paired games, swapping colors within each pair, and return the
/// accumulated half-point totals. Over `2n` games worth 2 half-points each,
/// the two totals always sum to `4n`: wins and draw halves account for
/// every game.
pub fn eval(a1: &Agent, a2: &Agent, n: usize) -> (r: (u64, u64))
    requires
        agent_ok(*a1),
        agent_ok(*a2),
        n <= 0x100_0000_0000_0000,
    ensures
        r.0 + r.1 == 4 * n,
{
    let mut score1: u64 = 0;
    let mut score2: u64 = 0;
    let mut i: usize = 0;
    while i < n
        invariant
            agent_ok(*a1),
            agent_ok(*a2),
            i <= n,
            n <= 0x100_0000_0000_0000,
            score1 + score2 == 4 * i,
        decreases n - i,
    {
        let (s1, s2) = play(a1, a2);
        score1 = score1 + (s1 as u64);
        score2 = score2 + (s2 as u64);
        let (t2, t1) = play(a2, a1);
        score1 = score1 + (t1 as u64);
        score2 = score2 + (t2 as u64);
        i = i + 1;
    }
    (score1, score2)
}

} // verus!
