use connect4::board::Board;
use connect4::engine::Engine;
use connect4::human::Human;

#[test]
fn test_engine_returns_legal_move() {
    // four stones alternate in column 3, then one lands on column 2:
    // nobody has won, the board is far from full, and the engine must
    // come back with a column that still has room
    let mut board = Board::new();
    assert_eq!(board.make_move(3), 1);
    assert_eq!(board.make_move(3), 1);
    assert_eq!(board.make_move(3), 1);
    assert_eq!(board.make_move(3), 1);
    assert_eq!(board.make_move(2), 1);
    assert!(!board.game_over(0));
    assert!(!board.game_over(1));
    assert!(!board.draw());
    let mut engine = Engine::new(4);
    let col = engine.get_move(&mut board);
    assert!(col < 7);
    assert!(board.col_height[col as usize] < 6);
}

#[test]
fn test_engine_finds_forced_win() {
    // the side to move has three stones stacked in column 5 and nothing
    // else wins in one move: the search must pick column 5
    let mut board = Board::new();
    board.make_move(5); // X
    board.make_move(0); // O
    board.make_move(5); // X
    board.make_move(0); // O
    board.make_move(5); // X
    board.make_move(1); // O
    let mut engine = Engine::new(4);
    let col = engine.get_move(&mut board);
    assert_eq!(col, 5);
    // a completed line is scored even at the search horizon, so the
    // shallowest engine already sees the win one ply out
    let mut shallow = Engine::new(1);
    assert_eq!(shallow.get_move(&mut board), 5);
    board.make_move(col);
    assert!(board.game_over(board.active ^ 1));
}

#[test]
fn test_engine_restores_board() {
    let mut board = Board::new();
    board.make_move(3);
    board.make_move(2);
    let masks = board.board;
    let heights = board.col_height;
    let active = board.active;
    let hash = board.hash;
    let mut engine = Engine::new(5);
    engine.get_move(&mut board);
    assert_eq!(board.board, masks);
    assert_eq!(board.col_height, heights);
    assert_eq!(board.active, active);
    assert_eq!(board.hash, hash);
}

#[test]
fn test_engine_cache_and_statistics() {
    let mut board = Board::new();
    let mut engine = Engine::new(5);
    engine.get_move(&mut board);
    // the search visited nodes and cached results
    assert!(engine.visited_counter > 0);
    assert!(engine.seen.len() > 0);
    assert_eq!(engine.seen.len(), engine.seen_order.len());
    // a second search over the same position hits the cache
    engine.get_move(&mut board);
    assert!(engine.tt_counter > 0);
}

#[test]
fn test_human_handle() {
    let _player = Human::new();
}
