//! Tests of the decision policies: minimax, the Monte-Carlo tree search,
//! and the agent interface with its self-play loop.

use qubic::agent::{eval, play, Agent};
use qubic::board::Board;
use qubic::mcts::{best_visit_actions, mcts_action, Node, Score};
use qubic::rng::get_random;

/// Black holds cells 0, 1, 2 of the bottom row line 0-1-2-3; column 3 wins.
fn planted_win_board() -> Board {
    let mut b = Board::new();
    for c in [0u8, 5, 1, 6, 2, 7] {
        b = b.next(c);
    }
    assert!(b.is_black());
    assert!(!b.is_win());
    b
}

#[test]
fn minimax_depth_one_takes_the_immediate_win() {
    let b = planted_win_board();
    for _ in 0..20 {
        assert_eq!(b.minimax_action(1), 3);
    }
}

#[test]
fn minimax_depth_two_takes_the_immediate_win() {
    let b = planted_win_board();
    for _ in 0..5 {
        assert_eq!(b.minimax_action(2), 3);
    }
}

#[test]
fn minimax_value_sees_the_forced_win() {
    let b = planted_win_board();
    assert_eq!(b._minimax_action(1), 1);
    assert_eq!(b._minimax_action(2), 1);
}

#[test]
fn minimax_depth_one_completes_a_vertical() {
    // Black stacks three pieces in column 9; the fourth completes a vertical.
    let mut b = Board::new();
    for c in [9u8, 0, 9, 1, 9, 2] {
        b = b.next(c);
    }
    for _ in 0..10 {
        assert_eq!(b.minimax_action(1), 9);
    }
}

#[test]
fn minimax_returns_some_open_column() {
    let b = Board::new();
    for _ in 0..10 {
        let a = b.minimax_action(1);
        assert!(a < 16);
    }
}

#[test]
fn mcts_visit_counts_sum_over_children() {
    let b = Board::new();
    let mut node = Node::new(b);
    let scores = node.search(50, 200);
    assert_eq!(scores.len(), 16);
    let total: u64 = scores.iter().map(|s| s.na).sum();
    let root_n = scores[0].n;
    for s in &scores {
        assert_eq!(s.n, root_n);
        assert!(s.na >= 1);
    }
    assert_eq!(root_n, 1 + 200);
    assert_eq!(total, 16 + 200);
}

#[test]
fn best_visit_actions_keeps_exactly_the_maxima() {
    let scores = vec![
        Score { action: 2, na: 3, w: 0, n: 20 },
        Score { action: 5, na: 7, w: 1, n: 20 },
        Score { action: 9, na: 7, w: -2, n: 20 },
        Score { action: 12, na: 1, w: 0, n: 20 },
    ];
    let best = best_visit_actions(&scores);
    assert_eq!(best, vec![5, 9]);
}

#[test]
fn mcts_prefers_the_immediate_win() {
    let b = planted_win_board();
    let a = mcts_action(&b, 800, 10);
    assert_eq!(a, 3);
}

#[test]
fn mcts_action_is_open() {
    let b = Board::new();
    let a = mcts_action(&b, 50, 10);
    assert!(a < 16);
}

#[test]
fn random_agent_plays_open_columns() {
    let mut b = Board::new();
    for _ in 0..4 {
        b = b.next(9);
    }
    for _ in 0..40 {
        let a = get_random(&b);
        assert!(a < 16);
        assert_ne!(a, 9);
    }
}

#[test]
fn play_splits_one_game() {
    for _ in 0..5 {
        let (s1, s2) = play(&Agent::Random, &Agent::Random);
        assert_eq!(s1 + s2, 2);
    }
}

#[test]
fn eval_scores_sum_to_all_games() {
    let (t1, t2) = eval(&Agent::Random, &Agent::Random, 5);
    assert_eq!(t1 + t2, 20);
    let (t1, t2) = eval(&Agent::Minimax(1), &Agent::Random, 2);
    assert_eq!(t1 + t2, 8);
}

#[test]
fn agent_names() {
    assert_eq!(Agent::Human.name(), "Human");
    assert_eq!(Agent::Random.name(), "Random");
    assert_eq!(Agent::Minimax(3).name(), "Minimax:3");
    assert_eq!(Agent::Minimax(10).name(), "Minimax:10");
    assert_eq!(Agent::Mcts(50, 1200).name(), "Mcts:1200/50");
}

#[test]
fn agents_decide_open_columns() {
    let b = planted_win_board();
    assert_eq!(Agent::Minimax(1).get_action(&b), 3);
    let a = Agent::Random.get_action(&b);
    assert!(a < 16);
    let a = Agent::Mcts(30, 300).get_action(&b);
    assert!(a < 16);
}
