use connect4::board::Board;
use connect4::board::FULL_BOARD;

#[test]
fn test_put() {
    let mut board = Board::new();
    board.board[0] = 0;
    board.put(0);
    assert_eq!(board.board[0], 0b1);
    board.put(0);
    assert_eq!(board.board[0], 0b11);
    board.board[0] = 0b1111 << 14;
    println!("{:064b}", board.board[0]);
    board.put(2);
    println!("{:064b}", board.board[0]);
    assert_eq!(board.board[0], 0b11111 << 14);
    board.board[0] = 1u64 << 7;
    board.put(1);
    assert_eq!(board.board[0], 0b11 << 7);
}

#[test]
fn test_remove() {
    let mut board = Board::new();
    board.board[0] = 0b1111 << 13;
    board.remove(2);
    assert_eq!(board.board[0], 0b111 << 13);
}

#[test]
fn test_make_unmake_move() {
    let mut board = Board::new();
    board.board[board.active] = 0b1111 << 13;
    let copy = board.board[board.active];
    board.make_move(2);
    board.unmake_move(2);
    assert_eq!(board.board[0], copy);
}

#[test]
fn test_zobrist_make_unmake() {
    let mut board = Board::new();
    board.board[board.active] = 0b1111 << 13;
    let copy = board.hash;
    board.make_move(5);
    board.unmake_move(5);
    assert_eq!(board.hash, copy);
}

#[test]
fn test_symmetrical_zobrist_moves() {
    let mut board = Board::new();
    let hash1 = board.hash;
    board.make_move(0);
    let bb = board.board[0];
    let hash2 = board.hash;
    board.unmake_move(0);
    assert_eq!(hash1, board.hash);
    board.make_move(6);
    println!("{:064b}", board.board[0]);
    println!("{:064b}", bb);
    assert_eq!(board.hash, hash2);
}

#[test]
fn test_symmetrical_zobrist_squares() {
    let board = Board::new();
    assert_eq!(board.zobrist_table[0][29], board.zobrist_table[0][15]);
    assert_eq!(board.zobrist_table[0][38], board.zobrist_table[0][10]);
    assert_eq!(board.zobrist_table[0][38], board.zobrist_table[0][10]);
    assert_eq!(board.zobrist_table[0][43], board.zobrist_table[0][1]);
    assert_eq!(board.zobrist_table[0][42], board.zobrist_table[0][0]);
}

#[test]
fn test_game_over() {
    let mut board = Board::new();
    for _ in 0..4 {
        board.put(2);
    }
    // end move by switching sides - usually make_move handles that
    board.active ^= 1;
    assert!(board.game_over(board.active ^ 1));
    let mut board = Board::new();
    for a in 0..4 {
        board.put(a);
    }
    // end move by switching sides - usually make_move handles that
    board.active ^= 1;
    assert!(board.game_over(board.active ^ 1));
    let mut board = Board::new();
    board.make_move(0);
    board.make_move(1);
    board.make_move(1);
    board.make_move(3);
    board.make_move(2);
    board.make_move(2);
    board.make_move(2);
    board.make_move(3);
    board.make_move(0);
    board.make_move(3);
    board.make_move(3);
    board.make_move(1);
    board.make_move(0);
    assert!(board.game_over(board.active ^ 1));
}

#[test]
fn test_invalid_moves() {
    let mut board = Board::new();
    for _ in 0..6 {
        board.make_move(3);
        board.make_move(1);
    }
    board.unmake_move(1);
    let bb = board.board;
    let active = board.active;
    let hash = board.hash;
    board.make_move(3);
    assert_eq!(board.active, active);
    assert_eq!(board.hash, hash);
    assert_eq!(board.board, bb);
}

#[test]
fn test_apply_retract_restores_everything() {
    let mut board = Board::new();
    board.make_move(3);
    board.make_move(3);
    board.make_move(0);
    let masks = board.board;
    let heights = board.col_height;
    let active = board.active;
    let hash = board.hash;
    assert_eq!(board.make_move(4), 1);
    board.unmake_move(4);
    assert_eq!(board.board, masks);
    assert_eq!(board.col_height, heights);
    assert_eq!(board.active, active);
    assert_eq!(board.hash, hash);
}

#[test]
fn test_mirror_sequence_hash() {
    // the position after a move sequence hashes like the position after
    // the left-right mirrored sequence
    let cols = [0u8, 1, 3, 2, 6, 3];
    let mut board = Board::new();
    for c in cols {
        assert_eq!(board.make_move(c), 1);
    }
    let hash_direct = board.hash;
    let mut mirror = Board::new();
    for c in cols {
        assert_eq!(mirror.make_move(6 - c), 1);
    }
    assert_eq!(mirror.hash, hash_direct);
}

#[test]
fn test_win_directions() {
    // vertical: four stones of one side stacked in column 2
    let mut board = Board::new();
    for _ in 0..4 {
        board.put(2);
    }
    assert!(board.game_over(0));
    assert!(!board.game_over(1));

    // horizontal with a gap: columns 0, 1, 2, 4 on row 0 is no win
    let mut board = Board::new();
    board.put(0);
    board.put(1);
    board.put(2);
    board.put(4);
    assert!(!board.game_over(0));

    // rising diagonal for the first side
    let mut board = Board::new();
    board.make_move(0); // X (0,0)
    board.make_move(1); // O (1,0)
    board.make_move(1); // X (1,1)
    board.make_move(2); // O (2,0)
    board.make_move(2); // X (2,1)
    board.make_move(3); // O (3,0)
    board.make_move(2); // X (2,2)
    board.make_move(3); // O (3,1)
    board.make_move(3); // X (3,2)
    board.make_move(0); // O (0,1)
    assert!(!board.game_over(board.active ^ 1));
    board.make_move(3); // X (3,3): 0,0 / 1,1 / 2,2 / 3,3
    assert!(board.game_over(board.active ^ 1));

    // falling diagonal for the first side
    let mut board = Board::new();
    board.make_move(3); // X (3,0)
    board.make_move(2); // O (2,0)
    board.make_move(2); // X (2,1)
    board.make_move(1); // O (1,0)
    board.make_move(1); // X (1,1)
    board.make_move(0); // O (0,0)
    board.make_move(1); // X (1,2)
    board.make_move(0); // O (0,1)
    board.make_move(0); // X (0,2)
    board.make_move(6); // O (6,0)
    assert!(!board.game_over(board.active ^ 1));
    board.make_move(0); // X (0,3): 3,0 / 2,1 / 1,2 / 0,3
    assert!(board.game_over(board.active ^ 1));
}

#[test]
fn test_vertical_three_is_no_win() {
    let mut board = Board::new();
    for _ in 0..3 {
        board.put(2);
    }
    board.active ^= 1;
    assert!(!board.game_over(board.active ^ 1));
}

#[test]
fn test_full_board_detection() {
    // all 42 playable squares covered: reported full
    let mut board = Board::new();
    board.board[0] = FULL_BOARD;
    assert!(board.draw());
    // one playable square missing: not full
    board.board[0] = FULL_BOARD ^ 1;
    assert!(!board.draw());
    // missing a different playable square, the top of column 6
    board.board[0] = FULL_BOARD ^ (1u64 << 47);
    assert!(!board.draw());
}

#[test]
fn test_draw_after_filling() {
    let mut board = Board::new();
    for col in 0..7u8 {
        for _ in 0..6 {
            assert_eq!(board.put(col), 1);
        }
        assert_eq!(board.put(col), 0);
    }
    assert!(board.draw());
}

#[test]
fn test_legal_moves_order() {
    let mut board = Board::new();
    assert_eq!(board.legal_moves(), vec![3, 2, 4, 1, 5, 0, 6]);
    for _ in 0..6 {
        board.put(3);
    }
    assert_eq!(board.legal_moves(), vec![2, 4, 1, 5, 0, 6]);
    for _ in 0..6 {
        board.put(0);
    }
    assert_eq!(board.legal_moves(), vec![2, 4, 1, 5, 6]);
}
