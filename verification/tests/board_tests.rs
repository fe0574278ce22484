//! Tests of the bitboard model and the terminal detector.

use qubic::board::Board;
use qubic::board::Player;
use qubic::lines::_is_win_board;
use qubic::text::board_string;

#[test]
fn board_next() {
    let mut board = Board::new();
    board = board.next(0);
    assert_eq!(board.black, 0x0000000000000001);
    board = board.next(0);
    assert_eq!(board.white, 0x0000000000010000);
    board = board.next(0);
    assert_eq!(board.black, 0x0000000100000001);
    board = board.next(0);
    assert_eq!(board.white, 0x0001000000010000);
}

#[test]
fn is_win_test() {
    assert!(_is_win_board(0xf000000000000000));
    assert!(_is_win_board(0x0100010001000100));
    assert!(_is_win_board(0x2222000000000000));
    assert!(_is_win_board(0x8421000000000000));
    assert!(_is_win_board(0x0000124800000000));
    assert!(!_is_win_board(0x0000000000000000));
    assert!(_is_win_board(0x0008000400020001));
    assert!(_is_win_board(0x8000040000200001));
    assert!(_is_win_board(0x2000020000200002));
    assert!(_is_win_board(0x0004004004004000));
}

const WINNING_MASKS: [u64; 76] = [
        0xf, 0xf0, 0xf00, 0xf000,
        0xf0000, 0xf00000, 0xf000000, 0xf0000000,
        0xf00000000, 0xf000000000, 0xf0000000000, 0xf00000000000,
        0xf000000000000, 0xf0000000000000, 0xf00000000000000, 0xf000000000000000,
        0x1111, 0x2222, 0x4444, 0x8888,
        0x11110000, 0x22220000, 0x44440000, 0x88880000,
        0x111100000000, 0x222200000000, 0x444400000000, 0x888800000000,
        0x1111000000000000, 0x2222000000000000, 0x4444000000000000, 0x8888000000000000,
        0x1000100010001, 0x2000200020002, 0x4000400040004, 0x8000800080008,
        0x10001000100010, 0x20002000200020, 0x40004000400040, 0x80008000800080,
        0x100010001000100, 0x200020002000200, 0x400040004000400, 0x800080008000800,
        0x1000100010001000, 0x2000200020002000, 0x4000400040004000, 0x8000800080008000,
        0x8421, 0x84210000, 0x842100000000, 0x8421000000000000,
        0x1248, 0x12480000, 0x124800000000, 0x1248000000000000,
        0x8000400020001, 0x80004000200010, 0x800040002000100, 0x8000400020001000,
        0x1000200040008, 0x10002000400080, 0x100020004000800, 0x1000200040008000,
        0x1000010000100001, 0x2000020000200002, 0x4000040000400004, 0x8000080000800008,
        0x1001001001000, 0x2002002002000, 0x4004004004000, 0x8008008008000,
        0x8000040000200001, 0x1000020000400008, 0x8004002001000, 0x1002004008000,
];

#[test]
fn all_winning_masks_detected() {
    for m in WINNING_MASKS {
        assert_eq!(m.count_ones(), 4);
        assert!(_is_win_board(m));
    }
    assert!(!_is_win_board(0));
}

#[test]
fn three_cells_of_a_line_do_not_win() {
    for m in WINNING_MASKS {
        let mut dropped = m;
        dropped &= dropped - 1;
        assert!(!_is_win_board(dropped));
    }
}

#[test]
fn valid_actions_tracks_top_layer() {
    let board = Board::new();
    let actions = board.valid_actions();
    assert_eq!(actions, (0..16u8).collect::<Vec<u8>>());

    let mut b = Board::new();
    for _ in 0..4 {
        b = b.next(5);
    }
    let actions = b.valid_actions();
    assert_eq!(actions.len(), 15);
    assert!(!actions.contains(&5));
    for c in 0..16u8 {
        let top_free = (b.black | b.white) >> (48 + c) & 1 == 0;
        assert_eq!(actions.contains(&c), top_free);
    }
    assert_eq!(b.action_mask(), 1 << 5);
}

#[test]
fn applying_valid_action_adds_one_piece() {
    let mut b = Board::new();
    for step in 0..20 {
        let before = (b.black | b.white).count_ones();
        let actions = b.valid_actions();
        let a = actions[step % actions.len()];
        b = b.next(a);
        assert_eq!((b.black | b.white).count_ones(), before + 1);
        assert_eq!(b.black & b.white, 0);
    }
}

#[test]
fn full_board_without_line_is_draw() {
    let seq: [u8; 64] = [0, 1, 2, 4, 3, 9, 5, 10, 6, 11, 7, 12, 8, 13, 14, 15, 2, 0, 4, 1, 6, 3, 8, 5, 9, 7, 10, 11, 13, 12, 15, 14, 3, 0, 4, 1, 5, 2, 7, 6, 8, 9, 12, 10, 13, 11, 14, 15, 0, 2, 1, 3, 6, 4, 7, 5, 9, 8, 11, 10, 13, 12, 14, 15];
    let mut b = Board::new();
    for (i, c) in seq.iter().enumerate() {
        assert!(b.valid_actions().contains(c), "move {} blocked", i);
        b = b.next(*c);
        assert!(!b.is_win(), "unexpected win at move {}", i);
        assert_eq!(b.is_draw(), i == 63);
    }
    assert!(b.is_draw());
}

#[test]
fn board_to_string_shows_masks() {
    let b = Board::new();
    assert_eq!(b.to_string(), "0,0");
    let b = b.next(0).next(0);
    assert_eq!(b.to_string(), "1,65536");
}

#[test]
fn player_alternates_and_parity_decodes() {
    assert_eq!(Player::Black.next(), Player::White);
    assert_eq!(Player::White.next(), Player::Black);
    assert_eq!(Player::from_u64(4), Player::Black);
    assert_eq!(Player::from_u64(7), Player::White);

    let b = Board::new();
    assert!(b.is_black());
    let b = b.next(3);
    assert!(!b.is_black());
}

#[test]
fn clone_copies_the_board() {
    let b = Board::new().next(4).next(7);
    let c = b.clone();
    assert_eq!(c.black, b.black);
    assert_eq!(c.white, b.white);
    assert_eq!(c.is_black(), b.is_black());
}

#[test]
fn board_string_shows_cells() {
    let b = Board::new();
    let s = board_string(&b);
    assert_eq!(s.len(), 116);
    let expected = "---- | ---- | ---- | ---- | \n".repeat(4);
    assert_eq!(s, expected);

    let b = b.next(0).next(1);
    let s = board_string(&b);
    let chars: Vec<char> = s.chars().collect();
    assert_eq!(chars[0], 'O');
    assert_eq!(chars[1], 'X');
    assert_eq!(chars[2], '-');
}
