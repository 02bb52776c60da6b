use game_of_life::board::Board;
use game_of_life::board::BoardError;
use game_of_life::board::Cell;

#[test]
fn neighbours_of_cell() {
    let cell = Cell { x: 1, y: 2 };
    let cells = vec![Cell { x: 4, y: 9 }, Cell { x: 1, y: 1 }, Cell { x: 1, y: 2 }];
    let board = Board::new(10, 10, cells).unwrap();
    let expected_cells = vec![Cell { x: 1, y: 1 }];

    assert_eq!(expected_cells, board.neighbours(&cell));
}

#[test]
fn neighbours_are_alive_adjacent_and_never_self() {
    let mut cells = Vec::new();
    for x in 0..3 {
        for y in 0..3 {
            cells.push(Cell { x, y });
        }
    }
    let board = Board::new(3, 3, cells).unwrap();
    let centre = Cell { x: 1, y: 1 };
    let result = board.neighbours(&centre);

    assert_eq!(8, result.len());
    for c in &result {
        assert!(!(c.x == centre.x && c.y == centre.y));
        assert!((c.x - centre.x).abs() <= 1);
        assert!((c.y - centre.y).abs() <= 1);
        assert!(board.is_alive(c));
    }
}

#[test]
fn neighbours_of_out_of_bounds_cell_is_empty() {
    let board = Board::new(3, 3, vec![Cell { x: 1, y: 1 }]).unwrap();
    let far = Cell { x: 100, y: -100 };

    assert!(board.neighbours(&far).is_empty());
}

#[test]
fn new_rejects_zero_width() {
    assert_eq!(Some(BoardError::InvalidDimension), Board::new(0, 10, vec![]).err());
}

#[test]
fn new_rejects_negative_height() {
    assert_eq!(Some(BoardError::InvalidDimension), Board::new(10, -1, vec![]).err());
}

#[test]
fn random_rejects_zero_width() {
    assert_eq!(Some(BoardError::InvalidDimension), Board::random(0, 10).err());
}

#[test]
fn random_rejects_negative_height() {
    assert!(matches!(Board::random(3, -1), Err(BoardError::InvalidDimension)));
}

#[test]
fn random_board_cells_are_in_bounds() {
    let board = Board::random(3, 3).unwrap();

    assert_eq!(3, board.width());
    assert_eq!(3, board.height());
    for c in board.alive_cells() {
        assert!(0 <= c.x && c.x < 3);
        assert!(0 <= c.y && c.y < 3);
    }
}

#[test]
fn from_coins_all_true_fills_the_grid() {
    let coins = vec![true; 9];
    let board = Board::from_coins(3, 3, &coins).unwrap();

    assert_eq!(9, board.alive_cells().len());
    for x in 0..3 {
        for y in 0..3 {
            assert!(board.is_alive(&Cell { x, y }));
        }
    }
}

#[test]
fn from_coins_all_false_leaves_the_grid_empty() {
    let coins = vec![false; 9];
    let board = Board::from_coins(3, 3, &coins).unwrap();

    assert_eq!(0, board.alive_cells().len());
    for x in 0..3 {
        for y in 0..3 {
            assert!(!board.is_alive(&Cell { x, y }));
        }
    }
}

#[test]
fn from_coins_rejects_invalid_dimensions() {
    let coins = vec![];
    assert!(matches!(
        Board::from_coins(0, -1, &coins),
        Err(BoardError::InvalidDimension)
    ));
}

#[test]
fn from_coins_follows_the_row_major_order() {
    // one coin per coordinate, row by row: (x, y) reads coins[x * height + y]
    let mut coins = vec![false; 6];
    coins[0 * 3 + 2] = true;
    coins[1 * 3 + 0] = true;
    let board = Board::from_coins(2, 3, &coins).unwrap();

    assert!(board.is_alive(&Cell { x: 0, y: 2 }));
    assert!(board.is_alive(&Cell { x: 1, y: 0 }));
    assert_eq!(2, board.alive_cells().len());
}
