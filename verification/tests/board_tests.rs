use eight_puzzle::board::{Board, Direction};

fn play(start: Board, plan: &[Direction]) -> Option<Board> {
    let mut board = start;
    for &direction in plan {
        board = board.apply(direction)?;
    }
    Some(board)
}

#[test]
fn value_at_reads_row_major() {
    let board = Board::new([[8, 7, 3], [2, 0, 5], [1, 4, 6]]);
    let expected = [[8u8, 7, 3], [2, 0, 5], [1, 4, 6]];
    for row in 0..3 {
        for col in 0..3 {
            assert_eq!(board.value_at(row, col), expected[row][col]);
        }
    }
}

#[test]
fn goal_has_every_tile_at_its_place() {
    let goal = Board::goal();
    let places = [(2, 2), (0, 0), (0, 1), (0, 2), (1, 0), (1, 1), (1, 2), (2, 0), (2, 1)];
    for (tile, &(row, col)) in places.iter().enumerate() {
        assert_eq!(goal.value_at(row, col) as usize, tile);
    }
    assert_eq!(goal, Board::new([[1, 2, 3], [4, 5, 6], [7, 8, 0]]));
}

#[test]
fn apply_moves_the_blank() {
    let board = Board::new([[1, 2, 3], [4, 0, 5], [7, 8, 6]]);
    assert_eq!(board.apply(Direction::Up), Some(Board::new([[1, 0, 3], [4, 2, 5], [7, 8, 6]])));
    assert_eq!(board.apply(Direction::Down), Some(Board::new([[1, 2, 3], [4, 8, 5], [7, 0, 6]])));
    assert_eq!(board.apply(Direction::Left), Some(Board::new([[1, 2, 3], [0, 4, 5], [7, 8, 6]])));
    assert_eq!(board.apply(Direction::Right), Some(Board::new([[1, 2, 3], [4, 5, 0], [7, 8, 6]])));
    // the board that was moved from is unchanged
    assert_eq!(board, Board::new([[1, 2, 3], [4, 0, 5], [7, 8, 6]]));
}

#[test]
fn apply_refuses_to_leave_the_grid() {
    let bottom_right = Board::goal();
    assert_eq!(bottom_right.apply(Direction::Down), None);
    assert_eq!(bottom_right.apply(Direction::Right), None);
    assert!(bottom_right.apply(Direction::Up).is_some());
    assert!(bottom_right.apply(Direction::Left).is_some());

    let top_left = Board::new([[0, 1, 2], [3, 4, 5], [6, 7, 8]]);
    assert_eq!(top_left.apply(Direction::Up), None);
    assert_eq!(top_left.apply(Direction::Left), None);
    assert!(top_left.apply(Direction::Down).is_some());
    assert!(top_left.apply(Direction::Right).is_some());

    let middle_left = Board::new([[1, 2, 3], [0, 4, 5], [6, 7, 8]]);
    assert_eq!(middle_left.apply(Direction::Left), None);
    let middle_right = Board::new([[1, 2, 3], [4, 5, 0], [6, 7, 8]]);
    assert_eq!(middle_right.apply(Direction::Right), None);
}

#[test]
fn opposite_moves_cancel() {
    let board = Board::new([[8, 7, 3], [2, 0, 5], [1, 4, 6]]);
    let pairs = [
        (Direction::Up, Direction::Down),
        (Direction::Down, Direction::Up),
        (Direction::Left, Direction::Right),
        (Direction::Right, Direction::Left),
    ];
    for (there, back) in pairs {
        let moved = board.apply(there).unwrap();
        assert_ne!(moved, board);
        assert_eq!(moved.apply(back), Some(board));
    }
}

#[test]
fn a_four_move_plan_solves_the_board() {
    let board = Board::new([[1, 2, 3], [4, 8, 5], [0, 7, 6]]);
    let plan = [Direction::Right, Direction::Up, Direction::Right, Direction::Down];
    assert!(board.is_valid_plan(&plan));
    assert_eq!(play(board, &plan), Some(Board::goal()));
}

#[test]
fn is_valid_plan_looks_at_every_move() {
    let board = Board::new([[1, 2, 3], [4, 8, 5], [0, 7, 6]]);
    assert!(board.is_valid_plan(&[]));
    assert!(board.is_valid_plan(&[Direction::Up, Direction::Up]));
    // legal moves that do not solve the board still make a valid plan
    assert!(board.is_valid_plan(&[Direction::Right, Direction::Left]));
    // the first move is illegal
    assert!(!board.is_valid_plan(&[Direction::Left, Direction::Right]));
    assert!(!board.is_valid_plan(&[Direction::Down]));
    // the last move is illegal
    assert!(!board.is_valid_plan(&[Direction::Up, Direction::Up, Direction::Up]));
    // an illegal move in the middle
    assert!(!board.is_valid_plan(&[Direction::Right, Direction::Down, Direction::Up]));
}

#[test]
fn is_valid_grid_wants_a_permutation() {
    assert!(Board::is_valid_grid(&[[1, 2, 3], [4, 5, 6], [7, 8, 0]]));
    assert!(Board::is_valid_grid(&[[8, 7, 3], [2, 0, 5], [1, 4, 6]]));
    // a tile twice
    assert!(!Board::is_valid_grid(&[[1, 2, 3], [4, 5, 6], [7, 7, 0]]));
    // a tile out of range
    assert!(!Board::is_valid_grid(&[[1, 2, 3], [4, 5, 6], [7, 9, 0]]));
    assert!(!Board::is_valid_grid(&[[1, 2, 3], [4, 5, 6], [7, 8, 255]]));
    // two blanks
    assert!(!Board::is_valid_grid(&[[0, 2, 3], [4, 5, 6], [7, 8, 0]]));
    // no blank
    assert!(!Board::is_valid_grid(&[[1, 2, 3], [4, 5, 6], [7, 8, 8]]));
}

#[test]
fn keys_tell_boards_apart() {
    assert_eq!(Board::goal().key(), 2271560481);
    assert_eq!(Board::new([[0, 1, 2], [3, 4, 5], [6, 7, 8]]).key(), 0x876543210);
    let board = Board::new([[8, 7, 3], [2, 0, 5], [1, 4, 6]]);
    let directions = [Direction::Up, Direction::Down, Direction::Left, Direction::Right];
    for direction in directions {
        let moved = board.apply(direction).unwrap();
        assert_ne!(moved.key(), board.key());
    }
    assert_eq!(board.key(), Board::new([[8, 7, 3], [2, 0, 5], [1, 4, 6]]).key());
}
